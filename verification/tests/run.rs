use std::cell::RefCell;
use std::collections::HashMap;

use mk::args::Args;
use mk::error::{Error, Level};
use mk::makefile::load::parse_file;
use mk::names::NameMap;
use mk::run::{exit_status, failure_status, makelevel, run};
use mk::makefile::exec::Outcome;
use mk::world::{Answer, Query, Stop, Transcript};

/// A world in which files are texts with a time, and the command `make X`
/// creates the file `X`.
struct World {
    files: RefCell<HashMap<String, (String, i128)>>,
    clock: RefCell<i128>,
    out: RefCell<Vec<String>>,
    log: RefCell<Vec<String>>,
}

impl World {
    fn new(files: &[(&str, &str, i128)]) -> World {
        World {
            files: RefCell::new(
                files.iter().map(|f| (f.0.to_string(), (f.1.to_string(), f.2))).collect(),
            ),
            clock: RefCell::new(100),
            out: RefCell::new(Vec::new()),
            log: RefCell::new(Vec::new()),
        }
    }

    fn create(&self, path: &str) {
        *self.clock.borrow_mut() += 1;
        let now = *self.clock.borrow();
        self.files.borrow_mut().insert(path.to_string(), (String::new(), now));
    }

    fn answer(&self, q: Query) -> Answer {
        match q {
            Query::Exists(p) => Answer::Flag(self.files.borrow().contains_key(&p)),
            Query::ReadFile(p) => match self.files.borrow().get(&p) {
                Some(f) => Answer::Text(f.0.clone()),
                None => Answer::Failed("No such file or directory".to_string()),
            },
            Query::ModTime(p) => match self.files.borrow().get(&p) {
                Some(f) => Answer::Time(f.1),
                None => Answer::Failed("No such file or directory".to_string()),
            },
            Query::WorkDir => Answer::Text("/work".to_string()),
            Query::ChangeDir(p) => {
                if p == "/nowhere" {
                    Answer::Failed("No such directory".to_string())
                } else {
                    Answer::Done
                }
            }
            Query::Print(s) => {
                self.out.borrow_mut().push(s);
                Answer::Done
            }
            Query::Warn(s) => {
                self.log.borrow_mut().push(s);
                Answer::Done
            }
            Query::Report(e) => {
                self.log.borrow_mut().push(e.message(&Level { depth: 0 }));
                Answer::Done
            }
            Query::Run { command, .. } => match command.strip_prefix("make ") {
                Some(p) => {
                    self.create(p);
                    Answer::Exit(Some(0))
                }
                None => Answer::Exit(Some(if command == "false" { 1 } else { 0 })),
            },
            Query::Create(p) | Query::Touch(p) => {
                self.create(&p);
                Answer::Done
            }
            Query::Shell(c) => Answer::Text(format!("{}\n", c)),
            other => panic!("unexpected {:?}", other),
        }
    }

    fn run(&self, argv: &[&str]) -> Result<i32, Error> {
        self.run_in(argv, &[])
    }

    fn run_in(&self, argv: &[&str], vars: &[(&str, &str)]) -> Result<i32, Error> {
        let argv: Vec<String> = argv.iter().map(|s| s.to_string()).collect();
        let mut env: NameMap<String> = NameMap::new();
        for (n, v) in vars {
            env.insert(n.to_string(), v.to_string());
        }
        let mut t = Transcript::new();
        loop {
            match run(&argv, 4, &env, "/bin/mk", &mut t) {
                Ok(status) => return Ok(status),
                Err(Stop::Ask(q)) => t = t.add(self.answer(q)),
                Err(Stop::Failed(e)) => return Err(e),
            }
        }
    }

    fn out(&self) -> Vec<String> {
        self.out.borrow_mut().drain(..).collect()
    }

    fn log(&self) -> Vec<String> {
        self.log.borrow_mut().drain(..).collect()
    }
}

fn message(r: Result<i32, Error>) -> String {
    r.unwrap_err().message(&Level { depth: 0 })
}

#[test]
fn a_program_is_built_once() {
    let src = "prog: a.o\n\tmake prog\na.o: a.c\n\tmake a.o\n";
    let w = World::new(&[("Makefile", src, 1), ("a.c", "", 1)]);
    assert_eq!(w.run(&[]).unwrap(), 0);
    assert_eq!(w.out(), vec!["make a.o", "make prog"]);
    // Everything is up to date now.
    assert_eq!(w.run(&[]).unwrap(), 0);
    assert!(w.out().is_empty());
    // A newer source has both made again.
    w.create("a.c");
    assert_eq!(w.run(&["-q"]).unwrap(), 1);
    assert!(w.out().is_empty() && w.log().is_empty());
    assert_eq!(w.run(&["-n"]).unwrap(), 0);
    assert_eq!(w.out(), vec!["make a.o"]);
    assert_eq!(w.run(&[]).unwrap(), 0);
    assert_eq!(w.out(), vec!["make a.o", "make prog"]);
    assert_eq!(w.run(&["-q"]).unwrap(), 0);
}

#[test]
fn builtin_rules_apply() {
    let w = World::new(&[("makefile", "all: x.o\n\t@:\n", 1), ("x.c", "", 1)]);
    w.run(&["CC=mycc"]).unwrap();
    assert_eq!(w.out(), vec!["mycc    -c -o x.o x.c"]);
    assert_eq!(w.run(&["-r"]).unwrap(), 2);
    assert_eq!(w.log(), vec!["mk: *** No rule to make target 'x.o'.  Stop."]);
}

#[test]
fn failures_set_the_status() {
    let w = World::new(&[("Makefile", "a:\n\t@false\nb:\n\t@ok\n", 1)]);
    assert_eq!(w.run(&["a", "b"]).unwrap(), 2);
    assert_eq!(
        w.log(),
        vec!["mk: *** [Makefile:1: a] Error 1", "Makefile:1: *** [a] Error 1.  Stop."]
    );
    assert_eq!(w.run(&["-i", "a"]).unwrap(), 0);
    assert_eq!(w.log(), vec!["Makefile:1: ignoring errors from recipe for 'a'"]);
}

#[test]
fn special_targets_set_flags() {
    let w = World::new(&[("Makefile", ".IGNORE:\n.SILENT:\na:\n\tfalse\n", 1)]);
    assert_eq!(w.run(&[]).unwrap(), 0);
    assert!(w.out().is_empty());
    assert_eq!(w.log(), vec!["Makefile:3: ignoring errors from recipe for 'a'"]);
}

#[test]
fn nothing_to_do() {
    let w = World::new(&[]);
    assert_eq!(
        message(w.run(&[])),
        "mk: *** No targets specified and no makefile found.  Stop."
    );
    assert_eq!(message(w.run(&["-f", "x.mk"])), "mk: *** x.mk: No such file or directory.  Stop.");
    let w = World::new(&[("Makefile", "A = 1\n", 1)]);
    assert_eq!(message(w.run(&[])), "mk: *** No targets.  Stop.");
}

#[test]
fn directories_are_told() {
    let w = World::new(&[("Makefile", "a:\n\t@ok $(CURDIR) $(MAKECMDGOALS)\n", 1)]);
    assert_eq!(w.run(&["-C", "sub"]).unwrap(), 0);
    assert_eq!(
        w.log(),
        vec!["mk: Entering directory '/work'", "mk: Leaving directory '/work'"]
    );
    assert_eq!(w.run_in(&["-w"], &[("MAKELEVEL", "2")]).unwrap(), 0);
    assert_eq!(
        w.log(),
        vec!["mk[2]: Entering directory '/work'", "mk[2]: Leaving directory '/work'"]
    );
    assert_eq!(message(w.run(&["-C", "/nowhere"])), "mk: *** /nowhere: No such directory.  Stop.");
}

#[test]
fn the_environment_and_the_command_line() {
    let w = World::new(&[("Makefile", "A = file\na:\n\tshow $(A) $(MAKECMDGOALS) $(CURDIR)\n", 1)]);
    w.run_in(&["a"], &[("A", "env")]).unwrap();
    assert_eq!(w.out(), vec!["show file a /work"]);
    w.run_in(&["-e", "a"], &[("A", "env")]).unwrap();
    assert_eq!(w.out(), vec!["show env a /work"]);
    w.run_in(&["-e", "a", "A=arg"], &[("A", "env")]).unwrap();
    assert_eq!(w.out(), vec!["show arg a /work"]);
}

#[test]
fn the_database_is_shown() {
    let w = World::new(&[("Makefile", "A = 1\nb: c | d\n", 1)]);
    assert_eq!(w.run(&["-p", "-rR"]).unwrap(), 0);
    let out = w.out();
    assert_eq!(out[0], "# Variables");
    assert_eq!(out[1..3], ["# file", "A = 1"]);
    assert!(out.contains(&"# Pattern rules".to_string()));
    assert_eq!(out[out.len() - 2..], ["# Explicit rules", "b: c d"]);
}

#[test]
fn a_makefile_is_read_from_a_file() {
    let args = Args::default();
    let mut env: NameMap<String> = NameMap::new();
    env.insert("HOME".to_string(), "/root".to_string());
    let mut t = Transcript::of(vec![Answer::Text("A = $(HOME) $(CC)\n".to_string())]);
    let mf = parse_file("x.mk", &args, &env, "/bin/mk", "/work", &mut t).unwrap();
    assert_eq!(mf.files_read, vec!["x.mk"]);
    assert_eq!(mf.vars.raw("A"), "$(HOME) $(CC)");
    assert_eq!(mf.vars.raw("HOME"), "/root");
    assert_eq!(mf.vars.raw("CC"), "cc");
    assert_eq!(mf.vars.raw("MAKE"), "/bin/mk");
    assert_eq!(mf.vars.raw("CURDIR"), "/work");
    assert_eq!(mf.vars.raw("MAKELEVEL"), "0");
    let mut t = Transcript::of(vec![Answer::Failed("gone".to_string())]);
    match parse_file("x.mk", &args, &env, "/bin/mk", "/work", &mut t) {
        Err(Stop::Failed(e)) => {
            assert_eq!(e.message(&Level { depth: 0 }), "mk: *** x.mk: gone.  Stop.")
        }
        other => panic!("expected a failure, not {:?}", other),
    }
}

#[test]
fn a_run_takes_the_same_course_with_more_answers() {
    let argv = vec!["-f".to_string(), "x.mk".to_string()];
    let env: NameMap<String> = NameMap::new();
    let answers = || {
        vec![
            Answer::Flag(true),
            Answer::Text("/work".to_string()),
            Answer::Text("a:\n\t@x\n".to_string()),
            Answer::Failed("gone".to_string()),
            Answer::Failed("gone".to_string()),
            Answer::Exit(Some(0)),
        ]
    };
    let status = run(&argv, 1, &env, "mk", &mut Transcript::of(answers())).unwrap();
    assert_eq!(status, 0);
    let mut more = answers();
    more.push(Answer::Exit(Some(9)));
    assert_eq!(run(&argv, 1, &env, "mk", &mut Transcript::of(more)).unwrap(), status);
    let mut fewer = answers();
    fewer.pop();
    match run(&argv, 1, &env, "mk", &mut Transcript::of(fewer)) {
        Err(Stop::Ask(Query::Run { command, .. })) => assert_eq!(command, "x"),
        other => panic!("expected a command, not {:?}", other),
    }
}

#[test]
fn shell_functions_are_asked_for() {
    let w = World::new(&[("Makefile", "A := $(shell date)\na:\n\tshow $(A)\n", 1)]);
    w.run(&[]).unwrap();
    assert_eq!(w.out(), vec!["show date"]);
}

#[test]
fn levels() {
    let mut env: NameMap<String> = NameMap::new();
    assert_eq!(makelevel(&env), 0);
    env.insert("MAKELEVEL".to_string(), "3".to_string());
    assert_eq!(makelevel(&env), 3);
    env.insert("MAKELEVEL".to_string(), "deep".to_string());
    assert_eq!(makelevel(&env), 0);
}

#[test]
fn statuses() {
    assert_eq!(exit_status(Outcome { failures: 0, outdated: false }), 0);
    assert_eq!(exit_status(Outcome { failures: 0, outdated: true }), 1);
    assert_eq!(exit_status(Outcome { failures: 3, outdated: true }), 2);
    assert_eq!(failure_status(&Error::Fatal("x".to_string())), 2);
    let loc = mk::error::Loc::new("f", 1);
    assert_eq!(failure_status(&Error::RecipeError { loc, target: "t".to_string(), code: 7 }), 7);
}

#[test]
fn the_directory_cannot_be_changed_by_a_makefile() {
    let src = "CURDIR = /a\noverride CURDIR = /b\nundefine CURDIR\ndefine CURDIR\n/c\nendef\n\
        a:\n\tshow $(CURDIR)\n";
    let w = World::new(&[("Makefile", src, 1)]);
    w.run(&[]).unwrap();
    assert_eq!(w.out(), vec!["show /work"]);
    w.run_in(&[], &[("CURDIR", "/env")]).unwrap();
    assert_eq!(w.out(), vec!["show /env"]);
    w.run(&["CURDIR=/line"]).unwrap();
    assert_eq!(w.out(), vec!["show /line"]);
}

#[test]
fn own_pattern_rules_are_used_before_builtin_ones() {
    let src = "all: x.o\n%.o: %.c\n\tmake x.o\n";
    let w = World::new(&[("Makefile", src, 1), ("x.c", "", 1)]);
    assert_eq!(w.run(&[]).unwrap(), 0);
    assert_eq!(w.out(), vec!["make x.o"]);
}

#[test]
fn going_on_after_a_failure() {
    let src = "all: a c\na: b\n\t@make a\nb:\n\t@false\nc:\n\tmake c\n";
    let w = World::new(&[("Makefile", src, 1)]);
    assert_eq!(w.run(&["-k"]).unwrap(), 2);
    assert_eq!(w.out(), vec!["make c"]);
    assert!(!w.files.borrow().contains_key("a"));
}

#[test]
fn a_target_without_a_recipe_is_up_to_date() {
    let w = World::new(&[("Makefile", "all: x\nx:\n\tmake x\n", 1)]);
    assert_eq!(w.run(&[]).unwrap(), 0);
    assert_eq!(w.out(), vec!["make x"]);
    assert_eq!(w.run(&["-q"]).unwrap(), 0);
    assert_eq!(w.run(&["-t"]).unwrap(), 0);
    assert!(w.log().is_empty());
}

#[test]
fn text_beyond_ascii_comes_through() {
    let w = World::new(&[("Makefile", "A = é€\nall:\n\techo $(A) ü\n", 1)]);
    assert_eq!(w.run(&[]).unwrap(), 0);
    assert_eq!(w.out(), vec!["echo é€ ü"]);
}

#[test]
fn the_origin_of_the_directory() {
    let w = World::new(&[("Makefile", "CURDIR = /a\na:\n\tshow $(origin CURDIR)\n", 1)]);
    w.run(&[]).unwrap();
    assert_eq!(w.out(), vec!["show default"]);
}

#[test]
fn what_implicit_rules_bring_in_is_built() {
    let src = "prog: x.o\n\tmake prog\n%.o: %.m\n\tmake x.o\n%.m: %.z\n\tmake x.m\n";
    let w = World::new(&[("Makefile", src, 1), ("x.z", "", 1)]);
    assert_eq!(w.run(&["-r"]).unwrap(), 0);
    assert_eq!(w.out(), vec!["make x.m", "make x.o", "make prog"]);
    assert_eq!(w.run(&["-r"]).unwrap(), 0);
    assert!(w.out().is_empty());
    w.create("x.z");
    assert_eq!(w.run(&["-r"]).unwrap(), 0);
    assert_eq!(w.out(), vec!["make x.m", "make x.o", "make prog"]);
}

#[test]
fn explicit_rules_for_what_an_implicit_rule_brings_in() {
    let src = "x.o:\n%.o: %.c\n\tmake x.o\nx.c: gen\n\tmake x.c\ngen:\n\tmake gen\n";
    let w = World::new(&[("Makefile", src, 1)]);
    assert_eq!(w.run(&["-r"]).unwrap(), 0);
    assert_eq!(w.out(), vec!["make gen", "make x.c", "make x.o"]);
}

#[test]
fn touching_goes_up_the_graph() {
    let src = "prog: x.o\n\tmake prog\nx.o: x.c\n\tmake x.o\n";
    let w = World::new(&[("Makefile", src, 1), ("x.c", "", 5), ("x.o", "", 3), ("prog", "", 4)]);
    assert_eq!(w.run(&["-t"]).unwrap(), 0);
    assert_eq!(w.out(), vec!["touch x.o", "touch prog"]);
}

#[test]
fn the_goal_may_be_a_reference() {
    let src = "X = b\n.DEFAULT_GOAL = $(X)\na:\n\tshow a\nb:\n\tshow b $(MAKECMDGOALS)\n";
    let w = World::new(&[("Makefile", src, 1)]);
    assert_eq!(w.run(&[]).unwrap(), 0);
    assert_eq!(w.out(), vec!["show b b"]);
}
