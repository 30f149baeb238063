use mk::makefile::vpath::VpathTable;
use mk::world::{Answer, Query, Stop, Transcript};

#[test]
fn set_vpath_colon_separated() {
    let mut vp = VpathTable::new();
    vp.set_vpath_var("src:lib:include");
    assert_eq!(vp.global, vec!["src", "lib", "include"]);
}

#[test]
fn set_vpath_space_separated() {
    let mut vp = VpathTable::new();
    vp.set_vpath_var("src lib");
    assert_eq!(vp.global, vec!["src", "lib"]);
}

#[test]
fn add_and_clear_pattern() {
    let mut vp = VpathTable::new();
    vp.add_pattern("%.c", "src");
    assert_eq!(vp.patterns.len(), 1);
    vp.clear_pattern("%.c");
    assert!(vp.patterns.is_empty());
}

#[test]
fn clear_all() {
    let mut vp = VpathTable::new();
    vp.add_pattern("%.c", "src");
    vp.add_pattern("%.h", "include");
    vp.clear_all();
    assert!(vp.patterns.is_empty());
}

#[test]
fn resolve_existing_file_ignored() {
    // A file that exists locally should not be looked up in vpath
    let mut vp = VpathTable::new();
    vp.set_vpath_var("/nonexistent-dir");
    // "." exists as the current dir, so any existing file won't be overridden
    let mut t = Transcript::of(vec![Answer::Flag(true)]);
    let result = vp.find(".", &mut t).unwrap();
    assert!(result.0.is_none()); // "." exists locally
}

#[test]
fn patterns_come_before_the_global_path() {
    let mut vp = VpathTable::new();
    vp.set_vpath_var("all");
    vp.add_pattern("%.c", "src/:old");
    vp.add_pattern("%.h", "inc");
    vp.add_pattern("%.c", "src/");
    let mut t = Transcript::of(vec![Answer::Flag(false)]);
    match vp.find("a.c", &mut t) {
        Err(Stop::Ask(Query::Exists(p))) => assert_eq!(p, "src/a.c"),
        _ => panic!("expected a question"),
    }
    let mut t = Transcript::of(vec![Answer::Flag(false), Answer::Flag(false)]);
    match vp.find("a.c", &mut t) {
        Err(Stop::Ask(Query::Exists(p))) => assert_eq!(p, "all/a.c"),
        _ => panic!("expected a question"),
    }
    let mut t = Transcript::of(vec![Answer::Flag(false), Answer::Flag(false), Answer::Flag(true)]);
    assert_eq!(vp.resolve("a.c", &mut t).unwrap(), ("all/a.c".to_string(), true));
    let mut t = Transcript::of(vec![Answer::Flag(false), Answer::Flag(false), Answer::Flag(false)]);
    assert_eq!(vp.resolve("a.c", &mut t).unwrap(), ("a.c".to_string(), false));
}
