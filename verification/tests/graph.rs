use mk::makefile::graph::{parse_archive_target, BuildGraph};
use mk::makefile::rule::{PatternRule, Prereq, RecipeLine};
use mk::error::Loc;
use mk::world::{Answer, Query, Stop, Transcript};

fn strings(v: &[&str]) -> Vec<String> {
    v.iter().map(|s| s.to_string()).collect()
}

fn rebuild(g: &mut BuildGraph, target: &str, answers: Vec<Answer>) -> bool {
    g.needs_rebuild(target, &mut Transcript::of(answers)).unwrap()
}

fn pattern(target: &str, prereqs: &[&str], recipe: &str) -> PatternRule {
    PatternRule {
        target: target.to_string(),
        prereqs: strings(prereqs),
        recipe: vec![RecipeLine::new(recipe)],
        loc: Loc::new("Makefile", 7),
        is_builtin: false,
    }
}

#[test]
fn topo_sort_simple() {
    let mut g = BuildGraph::new();
    g.entry("all").prereqs = vec![Prereq::normal("foo.o")];
    g.entry("foo.o").prereqs = vec![Prereq::normal("foo.c")];
    g.entry("foo.c");

    let order = g.topo_sort(&["all".to_string()]).order;
    assert_eq!(order, vec!["foo.c", "foo.o", "all"]);
}

#[test]
fn phony_always_rebuilds() {
    let mut g = BuildGraph::new();
    g.entry("clean").phony = true;
    assert!(rebuild(&mut g, "clean", vec![]));
}

#[test]
fn missing_target_needs_rebuild() {
    let mut g = BuildGraph::new();
    g.entry("/nonexistent-file-mk-test");
    let missing = Answer::Failed("No such file or directory".to_string());
    assert!(rebuild(&mut g, "/nonexistent-file-mk-test", vec![missing]));
}

#[test]
fn parse_archive_target_basic() {
    assert_eq!(parse_archive_target("libfoo.a(bar.o)"), Some(("libfoo.a", "bar.o")));
}

#[test]
fn parse_archive_target_no_match() {
    assert_eq!(parse_archive_target("libfoo.a"), None);
    assert_eq!(parse_archive_target("lib("), None);
}

#[test]
fn archive_target_with_nothing_inside() {
    assert_eq!(parse_archive_target("lib()"), Some(("lib", "")));
    assert_eq!(parse_archive_target("(m)"), Some(("", "m")));
    assert_eq!(parse_archive_target("a(b(c))"), Some(("a", "b(c)")));
}

#[test]
fn cycle_does_not_panic() {
    let mut g = BuildGraph::new();
    g.entry("a").prereqs = vec![Prereq::normal("b")];
    g.entry("b").prereqs = vec![Prereq::normal("a")];
    // Should not panic, just emit a warning
    let _ = g.topo_sort(&["a".to_string()]);
}

#[test]
fn a_cycle_is_dropped_where_it_closes() {
    let mut g = BuildGraph::new();
    g.entry("a").prereqs = vec![Prereq::normal("b")];
    g.entry("b").prereqs = vec![Prereq::normal("a")];
    let walk = g.topo_sort(&["a".to_string()]);
    assert_eq!(walk.order, vec!["b", "a"]);
    assert_eq!(walk.dropped, vec![("b".to_string(), "a".to_string())]);
}

#[test]
fn shared_prerequisites_come_once() {
    let mut g = BuildGraph::new();
    g.entry("all").prereqs = vec![Prereq::normal("x"), Prereq::order_only("y")];
    g.entry("x").prereqs = vec![Prereq::normal("z")];
    g.entry("y").prereqs = vec![Prereq::normal("z")];
    let walk = g.topo_sort(&strings(&["all", "z"]));
    assert_eq!(walk.order, vec!["z", "x", "y", "all"]);
    assert!(walk.dropped.is_empty());
}

#[test]
fn a_newer_prerequisite_calls_for_a_rebuild() {
    let mut g = BuildGraph::new();
    g.entry("a.o").prereqs = vec![Prereq::normal("a.c")];
    assert!(rebuild(&mut g, "a.o", vec![Answer::Time(5), Answer::Time(6)]));
    // The times are known now and are not asked for again.
    assert!(rebuild(&mut g, "a.o", vec![]));
    g.invalidate_mtime("a.o");
    assert!(!rebuild(&mut g, "a.o", vec![Answer::Time(6)]));
}

#[test]
fn an_older_prerequisite_does_not() {
    let mut g = BuildGraph::new();
    g.entry("a.o").prereqs = vec![Prereq::normal("a.c"), Prereq::normal("a.h")];
    assert!(!rebuild(&mut g, "a.o", vec![Answer::Time(5), Answer::Time(5), Answer::Time(4)]));
}

#[test]
fn a_missing_prerequisite_calls_for_a_rebuild() {
    let mut g = BuildGraph::new();
    g.entry("a.o").prereqs = vec![Prereq::normal("a.c")];
    let missing = Answer::Failed("gone".to_string());
    assert!(rebuild(&mut g, "a.o", vec![Answer::Time(5), missing]));
}

#[test]
fn order_only_prerequisites_are_not_compared() {
    let mut g = BuildGraph::new();
    g.entry("a.o").prereqs = vec![Prereq::order_only("dir")];
    assert!(!rebuild(&mut g, "a.o", vec![Answer::Time(5)]));
    assert_eq!(g.prereqs_of("a.o").len(), 0);
    assert_eq!(g.order_only_of("a.o"), vec!["dir"]);
}

#[test]
fn an_open_question_leaves_the_graph_alone() {
    let mut g = BuildGraph::new();
    g.entry("a.o").prereqs = vec![Prereq::normal("a.c")];
    let mut t = Transcript::of(vec![Answer::Time(5)]);
    match g.needs_rebuild("a.o", &mut t) {
        Err(Stop::Ask(Query::ModTime(p))) => assert_eq!(p, "a.c"),
        _ => panic!("expected a question"),
    }
    assert!(g.entry("a.o").mtime.is_none());
}

#[test]
fn a_pattern_rule_gives_recipe_and_prerequisites() {
    let mut g = BuildGraph::new();
    g.pattern_rules.push(pattern("%.o", &["%.c"], "cc -c $<"));
    let mut t = Transcript::of(vec![Answer::Flag(true)]);
    assert!(g.resolve_implicit("foo.o", &mut t).unwrap());
    let e = g.entry("foo.o");
    assert_eq!(e.stem.as_deref(), Some("foo"));
    assert_eq!(e.implicit_rule, Some(0));
    assert_eq!(e.recipe[0].text, "cc -c $<");
    assert_eq!(e.prereqs[0].name, "foo.c");
    assert_eq!(e.recipe_loc.as_ref().unwrap().text(), "Makefile:7");
}

#[test]
fn a_pattern_rule_needs_its_prerequisites() {
    let mut g = BuildGraph::new();
    g.pattern_rules.push(pattern("%.o", &["%.c"], "cc"));
    g.pattern_rules.push(pattern("%.o", &["%.s"], "as"));
    // foo.c: not there and nothing makes it; foo.s: not there, nor made.
    let mut t = Transcript::of(vec![Answer::Flag(false), Answer::Flag(false)]);
    assert!(!g.resolve_implicit("foo.o", &mut t).unwrap());
    // foo.s is there.
    let mut t = Transcript::of(vec![Answer::Flag(false), Answer::Flag(true)]);
    assert!(g.resolve_implicit("foo.o", &mut t).unwrap());
    assert_eq!(g.entry("foo.o").implicit_rule, Some(1));
}

#[test]
fn a_prerequisite_may_be_made_by_a_later_rule() {
    let mut g = BuildGraph::new();
    g.pattern_rules.push(pattern("%.o", &["%.c"], "cc"));
    g.pattern_rules.push(pattern("%.c", &["%.y"], "yacc"));
    // foo.c is not there, but foo.y is.
    let mut t = Transcript::of(vec![Answer::Flag(false), Answer::Flag(true)]);
    assert!(g.resolve_implicit("foo.o", &mut t).unwrap());
    assert_eq!(g.entry("foo.o").prereqs[0].name, "foo.c");
}

#[test]
fn an_explicit_recipe_stays() {
    let mut g = BuildGraph::new();
    g.pattern_rules.push(pattern("%.o", &["%.c"], "cc"));
    g.entry("foo.o").recipe = vec![RecipeLine::new("mine")];
    assert!(g.resolve_implicit("foo.o", &mut Transcript::new()).unwrap());
    assert_eq!(g.entry("foo.o").recipe[0].text, "mine");
}

#[test]
fn builtin_rules_come_after_the_makefiles_own() {
    let mut g = BuildGraph::new();
    g.pattern_rules.push(PatternRule { is_builtin: true, ..pattern("%.o", &["%.c"], "cc") });
    g.pattern_rules.push(pattern("%.o", &["%.c"], "mine"));
    let mut t = Transcript::of(vec![Answer::Flag(true)]);
    assert!(g.resolve_implicit("foo.o", &mut t).unwrap());
    assert_eq!(g.entry("foo.o").implicit_rule, Some(1));
    assert_eq!(g.entry("foo.o").recipe[0].text, "mine");
    // Where the own rule cannot be used, the built-in one is.
    let mut g = BuildGraph::new();
    g.pattern_rules.push(PatternRule { is_builtin: true, ..pattern("%.o", &["%.c"], "cc") });
    g.pattern_rules.push(pattern("%.o", &["%.z"], "mine"));
    let mut t = Transcript::of(vec![Answer::Flag(false), Answer::Flag(true)]);
    assert!(g.resolve_implicit("foo.o", &mut t).unwrap());
    assert_eq!(g.entry("foo.o").recipe[0].text, "cc");
}

#[test]
fn a_builtin_rule_may_make_the_prerequisite_of_an_own_one() {
    let mut g = BuildGraph::new();
    g.pattern_rules.push(PatternRule { is_builtin: true, ..pattern("%.c", &["%.y"], "yacc") });
    g.pattern_rules.push(pattern("%.o", &["%.c"], "mine"));
    // foo.c is not there, but foo.y is.
    let mut t = Transcript::of(vec![Answer::Flag(false), Answer::Flag(true)]);
    assert!(g.resolve_implicit("foo.o", &mut t).unwrap());
    assert_eq!(g.entry("foo.o").implicit_rule, Some(1));
}
