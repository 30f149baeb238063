use mk::makefile::rule::{apply_pattern, match_pattern, Prereq, RecipeLine};

#[test]
fn recipe_line_modifiers() {
    let r = RecipeLine::new("@-+echo hi");
    assert!(r.silent);
    assert!(r.ignore_error);
    assert!(r.always_run);
    assert_eq!(r.text, "echo hi");
}

#[test]
fn recipe_line_plain() {
    let r = RecipeLine::new("gcc -c foo.c");
    assert!(!r.silent);
    assert!(!r.ignore_error);
    assert!(!r.always_run);
    assert_eq!(r.text, "gcc -c foo.c");
}

#[test]
fn match_pattern_basic() {
    assert_eq!(match_pattern("foo.o", "%.o"), Some("foo"));
    assert_eq!(match_pattern("foo.o", "%.c"), None);
    assert_eq!(match_pattern("foo.o", "foo.o"), Some(""));
}

#[test]
fn match_pattern_prefix() {
    assert_eq!(match_pattern("src/foo.o", "src/%.o"), Some("foo"));
}

#[test]
fn match_pattern_no_percent() {
    assert_eq!(match_pattern("exact", "exact"), Some(""));
    assert_eq!(match_pattern("other", "exact"), None);
}

#[test]
fn apply_pattern_basic() {
    assert_eq!(apply_pattern("%.o", "foo"), "foo.o");
    assert_eq!(apply_pattern("src/%.c", "bar"), "src/bar.c");
}

#[test]
fn apply_pattern_no_percent() {
    assert_eq!(apply_pattern("fixed", "stem"), "fixed");
}

#[test]
fn pattern_does_not_overlap_itself() {
    assert_eq!(match_pattern("ab", "ab%b"), None);
    assert_eq!(match_pattern("abb", "ab%b"), Some(""));
    assert_eq!(match_pattern("näh.o", "n%.o"), Some("äh"));
}

#[test]
fn matching_and_applying_are_inverse() {
    let stem = match_pattern("lib/über.so", "lib/%.so").unwrap();
    assert_eq!(apply_pattern("lib/%.so", stem), "lib/über.so");
    assert_eq!(apply_pattern("%%", "x"), "x%");
}

#[test]
fn repeated_marks() {
    let r = RecipeLine::new("@@-x@");
    assert!(r.silent && r.ignore_error && !r.always_run);
    assert_eq!(r.text, "x@");
}

#[test]
fn prereq_kinds() {
    assert_eq!(Prereq::normal("a"), Prereq { name: "a".into(), order_only: false });
    assert_eq!(Prereq::order_only("a"), Prereq { name: "a".into(), order_only: true });
}
