use mk::makefile::var::{Flavor, Origin, Var, VarTable};

#[test]
fn basic_set_get() {
    let mut t = VarTable::new();
    t.set("CC", Var::new(Flavor::Simple, Origin::File, "gcc"));
    assert_eq!(t.raw("CC"), "gcc");
}

#[test]
fn command_line_wins_over_file() {
    let mut t = VarTable::new();
    t.set("CC", Var::new(Flavor::Simple, Origin::CommandLine, "clang"));
    t.set("CC", Var::new(Flavor::Simple, Origin::File, "gcc"));
    assert_eq!(t.raw("CC"), "clang");
}

#[test]
fn file_overwrites_environment() {
    let mut t = VarTable::new();
    t.set("CC", Var::new(Flavor::Simple, Origin::Environment, "env-cc"));
    t.set("CC", Var::new(Flavor::Simple, Origin::File, "file-cc"));
    assert_eq!(t.raw("CC"), "file-cc");
}

#[test]
fn override_blocked_by_command_line() {
    let mut t = VarTable::new();
    t.set("CC", Var::new(Flavor::Simple, Origin::CommandLine, "clang"));
    t.set("CC", Var::new(Flavor::Simple, Origin::Override, "override-cc"));
    assert_eq!(t.raw("CC"), "clang");
}

#[test]
fn undefine_file_var() {
    let mut t = VarTable::new();
    t.set("X", Var::new(Flavor::Simple, Origin::File, "foo"));
    t.undefine("X", Origin::File);
    assert_eq!(t.raw("X"), "");
    assert!(t.get("X").is_none());
}

#[test]
fn undefine_blocked_by_cmdline() {
    let mut t = VarTable::new();
    t.set("X", Var::new(Flavor::Simple, Origin::CommandLine, "foo"));
    t.undefine("X", Origin::File);
    assert_eq!(t.raw("X"), "foo");
}

#[test]
fn flavor_undefined() {
    let t = VarTable::new();
    assert_eq!(t.flavor_str("NOEXIST"), "undefined");
}

#[test]
fn flavor_simple() {
    let mut t = VarTable::new();
    t.set("X", Var::new(Flavor::Simple, Origin::File, "v"));
    assert_eq!(t.flavor_str("X"), "simple");
}

#[test]
fn flavor_recursive() {
    let mut t = VarTable::new();
    t.set("X", Var::new(Flavor::Recursive, Origin::File, "v"));
    assert_eq!(t.flavor_str("X"), "recursive");
}

#[test]
fn origin_str_file() {
    let mut t = VarTable::new();
    t.set("X", Var::new(Flavor::Simple, Origin::File, "v"));
    assert_eq!(t.origin_str("X"), "file");
}

#[test]
fn origin_str_cmdline() {
    let mut t = VarTable::new();
    t.set("X", Var::new(Flavor::Simple, Origin::CommandLine, "v"));
    assert_eq!(t.origin_str("X"), "command line");
}

#[test]
fn lower_origin_never_overwrites() {
    let mut t = VarTable::new();
    t.set("X", Var::new(Flavor::Simple, Origin::Override, "strong"));
    t.set("X", Var::new(Flavor::Simple, Origin::File, "weak"));
    assert_eq!(t.raw("X"), "strong");
    t.set("X", Var::new(Flavor::Simple, Origin::Override, "again"));
    assert_eq!(t.raw("X"), "again");
}

#[test]
fn replace_yields_to_the_command_line_only() {
    let mut t = VarTable::new();
    t.set("X", Var::new(Flavor::Simple, Origin::Override, "a"));
    t.replace("X", Var::new(Flavor::Simple, Origin::Default, "b"));
    assert_eq!(t.raw("X"), "b");
    t.set("X", Var::new(Flavor::Simple, Origin::CommandLine, "c"));
    t.replace("X", Var::new(Flavor::Simple, Origin::Override, "d"));
    assert_eq!(t.raw("X"), "c");
}

#[test]
fn exports() {
    let mut t = VarTable::new();
    t.set("A", Var::new(Flavor::Simple, Origin::File, "1"));
    t.set("B", Var::new(Flavor::Simple, Origin::File, "2"));
    t.set("C", Var::new(Flavor::Simple, Origin::Default, "3"));
    t.set_exported("A", Some(true));
    t.set_exported("NONE", Some(true));
    let out = t.env_exports();
    assert_eq!(out.len(), 1);
    assert_eq!(out.get("A").map(|s| s.as_str()), Some("1"));
    t.export_all = true;
    t.set_exported("A", Some(false));
    let out = t.env_exports();
    assert_eq!(out.len(), 1);
    assert_eq!(out.get("B").map(|s| s.as_str()), Some("2"));
}

#[test]
fn listing_is_in_order() {
    let mut t = VarTable::new();
    t.set("b", Var::new(Flavor::Simple, Origin::File, "2"));
    t.set("a", Var::new(Flavor::Simple, Origin::File, "1"));
    t.set("C", Var::new(Flavor::Simple, Origin::File, "0"));
    let names: Vec<String> = t.iter().iter().map(|p| p.0.to_string()).collect();
    assert_eq!(names, vec!["C", "a", "b"]);
    let raws: Vec<String> = t.iter().iter().map(|p| p.1.raw.clone()).collect();
    assert_eq!(raws, vec!["0", "1", "2"]);
}

#[test]
fn origin_names() {
    assert_eq!(Origin::Default.name(), "default");
    assert_eq!(Origin::Environment.name(), "environment");
    assert_eq!(Origin::Override.name(), "override");
    assert_eq!(Origin::Automatic.name(), "automatic");
    assert!(Origin::Automatic > Origin::CommandLine);
}
