use mk::error::Loc;
use mk::makefile::implicit::{
    builtin_rules, builtin_vars, default_suffixes, find_chain, find_rule, suffix_to_pattern,
};
use mk::makefile::rule::match_pattern;

#[test]
fn suffix_rule_translation() {
    let loc = Loc::new("Makefile", 1);
    let rule = suffix_to_pattern(".c", ".o", vec![], loc);
    assert_eq!(rule.target, "%.o");
    assert_eq!(rule.prereqs, vec!["%.c"]);
}

#[test]
fn builtin_c_rule_matches() {
    let rules = builtin_rules();
    let c_rule = rules.iter().find(|r| r.target == "%.o" && r.prereqs == vec!["%.c".to_string()]).unwrap();
    assert!(match_pattern("foo.o", &c_rule.target).is_some());
}

#[test]
fn find_rule_basic() {
    let rules = builtin_rules();
    let result = find_rule("foo.o", &rules);
    assert!(result.is_some());
    let (_, stem) = result.unwrap();
    assert_eq!(stem, "foo");
}

#[test]
fn find_rule_no_match_empty() {
    // An empty rule list never matches
    assert!(find_rule("foo.xyz", &[]).is_none());
}

#[test]
fn find_rule_builtin_percent_matches_all() {
    // The `%` rule (link from %.o) matches anything including "foo"
    let rules = builtin_rules();
    // foo.o should match %.o → stem "foo"
    let r = find_rule("foo.o", &rules);
    assert!(r.is_some());
}

#[test]
fn chain_c_to_o() {
    let rules = builtin_rules();
    // foo.c exists, need to build foo.o
    let file_exists = |f: &str| f == "foo.c";
    let chain = find_chain("foo.o", &rules, &file_exists, 0);
    assert!(chain.is_some());
}

#[test]
fn chain_goes_through_missing_files() {
    let rules = builtin_rules();
    let files = |f: &str| f == "foo.y";
    let chain = find_chain("foo.o", &rules, &files, 0).unwrap();
    assert_eq!(chain, vec![(0, "foo".to_string()), (8, "foo".to_string())]);
    assert!(find_chain("foo.o", &rules, &|_: &str| false, 0).is_none());
    assert!(find_chain("foo.o", &rules, &files, 5).is_none());
    assert!(find_chain("foo.c", &rules, &files, 5).is_some());
    assert!(find_chain("foo.c", &rules, &files, 6).is_none());
}

#[test]
fn builtin_lists() {
    assert_eq!(builtin_rules().len(), 9);
    assert!(builtin_rules().iter().all(|r| r.is_builtin && r.loc.file == "<builtin>"));
    assert_eq!(builtin_rules()[7].recipe[1].text, "mv -f lex.yy.c $@");
    let vars = builtin_vars();
    assert_eq!(vars.len(), 18);
    assert_eq!(vars[0], ("CC", "cc"));
    assert_eq!(vars[17], ("OUTPUT_OPTION", "-o $@"));
    let suffixes = default_suffixes();
    assert_eq!(suffixes.len(), 35);
    assert_eq!(suffixes[34], ".el");
}
