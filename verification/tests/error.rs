use mk::error::{fatal, fatal_at, prog, set_makelevel, warning, Error, Level, Loc};

#[test]
fn fatal_format() {
    let mut level = Level { depth: 3 };
    set_makelevel(&mut level, 0);
    assert_eq!(
        fatal("No targets specified").message(&level),
        "mk: *** No targets specified.  Stop."
    );
}

#[test]
fn fatal_at_format() {
    let loc = Loc::new("Makefile", 5);
    assert_eq!(
        fatal_at(loc, "missing separator").message(&Level { depth: 0 }),
        "Makefile:5: *** missing separator.  Stop."
    );
}

#[test]
fn recipe_error_format() {
    let mut level = Level { depth: 7 };
    set_makelevel(&mut level, 0);
    let e = Error::RecipeError {
        loc: Loc::new("Makefile", 10),
        target: "all".into(),
        code: 1,
    };
    assert_eq!(e.message(&level), "mk: *** [Makefile:10: all] Error 1");
}

#[test]
fn warning_format() {
    let e = warning(Loc::new("Makefile", 3), "overriding recipe for 'foo'");
    assert_eq!(e.message(&Level { depth: 0 }), "Makefile:3: overriding recipe for 'foo'");
}

#[test]
fn interrupt_format() {
    let e = Error::RecipeInterrupt { loc: Loc::new("Makefile", 10), target: "all".into() };
    assert_eq!(e.message(&Level { depth: 2 }), "mk[2]: *** [Makefile:10: all] Interrupt");
}

#[test]
fn name_shows_nesting() {
    assert_eq!(prog(&Level { depth: 0 }), "mk");
    assert_eq!(prog(&Level { depth: 12 }), "mk[12]");
}

#[test]
fn exit_codes() {
    let loc = Loc::new("Makefile", 1);
    assert_eq!(fatal("x").exit_code(), 2);
    assert_eq!(fatal_at(loc.clone(), "x").exit_code(), 2);
    assert_eq!(
        Error::RecipeError { loc: loc.clone(), target: "t".into(), code: -17 }.exit_code(),
        -17
    );
    assert_eq!(Error::RecipeInterrupt { loc: loc.clone(), target: "t".into() }.exit_code(), 2);
    let w = warning(loc.clone(), "x");
    assert_eq!(w.exit_code(), 0);
    assert!(w.is_warning());
    assert!(!fatal("x").is_warning());
    assert_eq!(loc.text(), "Makefile:1");
}

#[test]
fn negative_status_is_shown() {
    let e = Error::RecipeError { loc: Loc::new("m", 2), target: "t".into(), code: -1 };
    assert_eq!(e.message(&Level { depth: 0 }), "mk: *** [m:2: t] Error -1");
}
