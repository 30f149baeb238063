use mk::args::Args;
use mk::error::Level;
use mk::makefile::parse::{parse_source_pub, parse_str};
use mk::makefile::rule::Prereq;
use mk::makefile::var::{Flavor, Origin};
use mk::makefile::Makefile;
use mk::world::{Answer, Query, Stop, Transcript};

fn read(src: &str, answers: Vec<Answer>) -> Makefile {
    let mut mf = Makefile::new();
    let args = Args::default();
    parse_str(src, "test", &mut mf, &args, &mut Transcript::of(answers)).unwrap();
    mf
}

fn parse(src: &str) -> Makefile {
    read(src, vec![])
}

fn failure_with(src: &str, answers: Vec<Answer>) -> String {
    let mut mf = Makefile::new();
    let args = Args::default();
    match parse_str(src, "test", &mut mf, &args, &mut Transcript::of(answers)) {
        Err(Stop::Failed(e)) => e.message(&Level { depth: 0 }),
        other => panic!("expected a failure, not {:?}", other),
    }
}

fn failure(src: &str) -> String {
    failure_with(src, vec![])
}

fn goal(mf: &Makefile) -> Option<String> {
    mf.default_goal(&mut Transcript::new()).unwrap()
}

fn prereq_names(list: &[Prereq]) -> Vec<&str> {
    list.iter().map(|p| p.name.as_str()).collect()
}

#[test]
fn simple_var_assignment() {
    let mf = parse("CC = gcc\n");
    assert_eq!(mf.vars.raw("CC"), "gcc");
}

#[test]
fn immediate_var_assignment() {
    let mf = parse("CC := gcc\n");
    assert_eq!(mf.vars.raw("CC"), "gcc");
}

#[test]
fn conditional_var_not_set() {
    let mf = parse("CC = gcc\nCC ?= clang\n");
    assert_eq!(mf.vars.raw("CC"), "gcc");
}

#[test]
fn conditional_var_set() {
    let mf = parse("CC ?= clang\n");
    assert_eq!(mf.vars.raw("CC"), "clang");
}

#[test]
fn append_var() {
    let mf = parse("CFLAGS = -O2\nCFLAGS += -g\n");
    assert_eq!(mf.vars.raw("CFLAGS"), "-O2 -g");
}

#[test]
fn conditional_ifeq_true() {
    let mf = parse("ifeq (a,a)\nX = yes\nendif\n");
    assert_eq!(mf.vars.raw("X"), "yes");
}

#[test]
fn conditional_ifeq_false() {
    let mf = parse("ifeq (a,b)\nX = yes\nendif\n");
    assert_eq!(mf.vars.raw("X"), "");
}

#[test]
fn conditional_else() {
    let mf = parse("ifeq (a,b)\nX = yes\nelse\nX = no\nendif\n");
    assert_eq!(mf.vars.raw("X"), "no");
}

#[test]
fn conditional_nested() {
    let mf = parse("ifeq (a,a)\nifeq (b,b)\nX = both\nendif\nendif\n");
    assert_eq!(mf.vars.raw("X"), "both");
}

#[test]
fn define_block() {
    let mf = parse("define MYMACRO\nfoo\nbar\nendef\n");
    assert_eq!(mf.vars.raw("MYMACRO"), "foo\nbar");
}

#[test]
fn simple_rule() {
    let mf = parse("all:\n\t@echo done\n");
    assert!(!mf.graph.entries.is_empty());
    assert!(mf.graph.entries.contains_key("all"));
}

#[test]
fn phony_target() {
    let mf = parse(".PHONY: clean\nclean:\n\trm -f *.o\n");
    assert!(mf.graph.entries.get("clean").map(|e| e.phony).unwrap_or(false));
}

#[test]
fn order_only_prereqs() {
    let mf = parse("foo.o: foo.c | build/\n");
    let entry = mf.graph.entries.get("foo.o").unwrap();
    let normal: Vec<_> = entry.prereqs.iter().filter(|p| !p.order_only).collect();
    let order: Vec<_> = entry.prereqs.iter().filter(|p| p.order_only).collect();
    assert_eq!(normal.len(), 1);
    assert_eq!(order.len(), 1);
    assert_eq!(order[0].name, "build/");
}

#[test]
fn double_colon_rule() {
    let mf = parse("all:: foo\nall:: bar\n");
    let entry = mf.graph.entries.get("all").unwrap();
    assert_eq!(entry.dc_rules.len(), 2);
}

#[test]
fn ifdef_defined() {
    let mf = parse("CC = gcc\nifdef CC\nX = yes\nendif\n");
    assert_eq!(mf.vars.raw("X"), "yes");
}

#[test]
fn ifdef_undefined() {
    let mf = parse("ifdef UNDEFINED_VAR\nX = yes\nendif\n");
    assert_eq!(mf.vars.raw("X"), "");
}

#[test]
fn recipes_are_kept_with_their_modifiers() {
    let mf = parse("all: dep\n\t@-echo one\n\t+two\n");
    let e = mf.graph.entries.get("all").unwrap();
    assert_eq!(e.recipe.len(), 2);
    assert_eq!(e.recipe[0].text, "echo one");
    assert!(e.recipe[0].silent && e.recipe[0].ignore_error && !e.recipe[0].always_run);
    assert_eq!(e.recipe[1].text, "two");
    assert!(e.recipe[1].always_run);
    assert_eq!(goal(&mf).as_deref(), Some("all"));
}

#[test]
fn several_rules_merge_and_the_last_recipe_wins() {
    let answers = vec![Answer::Done, Answer::Done];
    let mf = read("a: x y\n\tfirst\na: y z\n\tsecond\n", answers);
    let e = mf.graph.entries.get("a").unwrap();
    assert_eq!(prereq_names(&e.prereqs), vec!["x", "y", "z"]);
    assert_eq!(e.recipe[0].text, "second");
}

#[test]
fn immediate_values_are_expanded_and_recursive_ones_are_not() {
    let mf = parse("A = 1\nB := $(A)\nC = $(A)\nA = 2\n");
    assert_eq!(mf.vars.raw("B"), "1");
    assert_eq!(mf.vars.raw("C"), "$(A)");
}

#[test]
fn conditionals_nest_three_deep() {
    let src = "ifeq (a,a)\nifneq (a,a)\nX = 1\nelse\nifdef NOPE\nX = 2\nelse\nX = 3\nendif\nendif\nendif\n";
    assert_eq!(parse(src).vars.raw("X"), "3");
}

#[test]
fn else_with_a_condition() {
    let src = "ifeq (a,b)\nX = 1\nelse ifeq (a,a)\nX = 2\nelse\nX = 3\nendif\n";
    assert_eq!(parse(src).vars.raw("X"), "2");
}

#[test]
fn letters_behind_a_condition_belong_to_the_word() {
    let src = "ifeq (a,b)\nX = 1\nelse ifeqx (a,b)\nX = 2\nendif\n";
    assert_eq!(parse(src).vars.raw("X"), "");
    let src = "ifeq (a,b)\nX = 1\nelse ifeq\u{e9} (a,a)\nX = 2\nendif\n";
    assert_eq!(parse(src).vars.raw("X"), "2");
}

#[test]
fn quoted_conditions() {
    let src = "V =\nifeq \"$(V)\" \"\"\nX = empty\nendif\nifneq 'a' 'b'\nY = differ\nendif\n";
    let mf = parse(src);
    assert_eq!(mf.vars.raw("X"), "empty");
    assert_eq!(mf.vars.raw("Y"), "differ");
}

#[test]
fn conditions_that_do_not_close() {
    assert_eq!(failure("ifeq (a,a)\nX = 1\n"), "test:0: *** missing endif.  Stop.");
    assert_eq!(failure("endif\n"), "test:1: *** extraneous endif.  Stop.");
    assert_eq!(failure("else\n"), "test:1: *** extraneous else.  Stop.");
}

#[test]
fn definitions_end_at_endef() {
    let mf = parse("define M\n\na b\n\nendef\nX = 1\n");
    assert_eq!(mf.vars.raw("M"), "\na b\n");
    assert_eq!(mf.vars.raw("X"), "1");
}

#[test]
fn override_and_export() {
    let mf = parse("override CC = gcc\nexport CC\nexport D = e\nunexport D\n");
    assert_eq!(mf.vars.origin_str("CC"), "override");
    let env = mf.vars.env_exports();
    assert_eq!(env.get("CC").map(|s| s.as_str()), Some("gcc"));
    assert!(env.get("D").is_none());
}

#[test]
fn undefine_forgets() {
    let mf = parse("A = 1\nundefine A\n");
    assert!(mf.vars.get("A").is_none());
}

#[test]
fn target_specific_variables() {
    let mf = parse("prog: CFLAGS = -g\n");
    let e = mf.graph.entries.get("prog").unwrap();
    assert!(e.prereqs.is_empty());
    assert_eq!(e.target_vars.len(), 1);
    assert_eq!(e.target_vars[0].0, "CFLAGS");
    assert_eq!(e.target_vars[0].1, "-g");
    assert!(e.target_vars[0].3 == Origin::File);
    assert_eq!(mf.vars.raw("CFLAGS"), "");
}

#[test]
fn static_patterns() {
    let mf = parse("a.o b.o: %.o: %.c common.h\n\tcc $<\n");
    let e = mf.graph.entries.get("b.o").unwrap();
    assert_eq!(prereq_names(&e.prereqs), vec!["b.c", "common.h"]);
    assert_eq!(e.recipe[0].text, "cc $<");
}

#[test]
fn special_targets() {
    let mf = parse(".PRECIOUS: p\n.INTERMEDIATE: i\n.SECONDARY: s\n.SECONDEXPANSION:\n.NOTPARALLEL:\n.IGNORE:\n.SILENT:\n");
    assert!(mf.graph.entries.get("p").unwrap().precious);
    assert!(mf.graph.entries.get("i").unwrap().intermediate);
    assert!(mf.graph.entries.get("s").unwrap().secondary);
    assert!(mf.second_expansion && mf.not_parallel && mf.global_ignore && mf.global_silent);
    assert!(goal(&mf).is_none());
}

#[test]
fn default_goal_variable() {
    let mf = parse("a:\nb:\n.DEFAULT_GOAL = b\n");
    assert_eq!(goal(&mf).as_deref(), Some("b"));
    assert_eq!(goal(&parse("a:\nb:\n")).as_deref(), Some("a"));
}

#[test]
fn the_default_goal_is_expanded() {
    let mf = parse("X = b\na:\n.DEFAULT_GOAL = $(X)\n");
    assert_eq!(goal(&mf).as_deref(), Some("b"));
    assert_eq!(goal(&parse("a:\n.DEFAULT_GOAL = $(X)\n")).as_deref(), Some("a"));
    assert_eq!(goal(&parse(".DEFAULT_GOAL := x$$y\n")).as_deref(), Some("x$y"));
    let mut mf = parse("a:\n.DEFAULT_GOAL = b\n");
    mf.default_goal = Some("c".to_string());
    assert_eq!(goal(&mf).as_deref(), Some("c"));
    let mf = parse(".DEFAULT_GOAL = $(.DEFAULT_GOAL)\n");
    match mf.default_goal(&mut Transcript::new()) {
        Err(Stop::Failed(e)) => assert_eq!(
            e.message(&Level { depth: 0 }),
            ".DEFAULT_GOAL:0: *** Recursive variable '.DEFAULT_GOAL' references itself \
             (eventually).  Stop."
        ),
        other => panic!("expected a failure, not {:?}", other),
    }
}

#[test]
fn included_files_are_read_in_place() {
    let answers = vec![Answer::Flag(true), Answer::Text("B = 2\n".to_string())];
    let mf = read("A = 1\ninclude sub.mk\nC = $(B)3\nD := $(C)\n", answers);
    assert_eq!(mf.vars.raw("D"), "23");
    assert_eq!(mf.files_read, vec!["sub.mk"]);
}

#[test]
fn the_file_to_read_is_asked_for() {
    let mut mf = Makefile::new();
    let args = Args::default();
    let mut t = Transcript::of(vec![Answer::Flag(true)]);
    match parse_str("include sub.mk\n", "test", &mut mf, &args, &mut t) {
        Err(Stop::Ask(Query::ReadFile(p))) => assert_eq!(p, "sub.mk"),
        other => panic!("expected a question, not {:?}", other),
    }
}

#[test]
fn missing_files() {
    let no = || Answer::Flag(false);
    let gone = || Answer::Failed("No such file or directory (os error 2)".to_string());
    assert_eq!(
        failure_with("include sub.mk\n", vec![no(), gone()]),
        "test:1: *** sub.mk: No such file or directory (os error 2).  Stop."
    );
    let src = "-include sub.mk\nsinclude other.mk\nA = 1\n";
    let mf = read(src, vec![no(), gone(), no(), gone()]);
    assert_eq!(mf.vars.raw("A"), "1");
    assert!(mf.files_read.is_empty());
}

#[test]
fn directories_are_searched_for_makefiles() {
    let mut mf = Makefile::new();
    mf.include_dirs = vec!["x".to_string(), "y".to_string()];
    let args = Args::default();
    let answers = vec![
        Answer::Flag(false),
        Answer::Flag(false),
        Answer::Flag(true),
        Answer::Text("A = 1\n".to_string()),
    ];
    parse_str("include sub.mk\n", "test", &mut mf, &args, &mut Transcript::of(answers)).unwrap();
    assert_eq!(mf.files_read, vec!["y/sub.mk"]);
}

#[test]
fn circular_includes() {
    let yes = || Answer::Flag(true);
    let again = || Answer::Text("include a.mk\n".to_string());
    assert_eq!(
        failure_with("include a.mk\n", vec![yes(), again(), yes(), again()]),
        "a.mk:1: *** circular include of 'a.mk'.  Stop."
    );
}

#[test]
fn pattern_rules_keep_their_recipes() {
    let mf = parse("%.o: %.c hdr.h\n\tcc -c $<\nall: a.o\n");
    assert_eq!(mf.graph.pattern_rules.len(), 1);
    let rule = &mf.graph.pattern_rules[0];
    assert_eq!(rule.target, "%.o");
    assert_eq!(rule.prereqs, vec!["%.c", "hdr.h"]);
    assert_eq!(rule.recipe[0].text, "cc -c $<");
    assert!(!rule.is_builtin);
    assert_eq!(goal(&mf).as_deref(), Some("all"));
}

#[test]
fn the_default_recipe_is_kept() {
    let mf = parse(".DEFAULT:\n\tfetch $@\n");
    assert_eq!(mf.graph.default_recipe.unwrap()[0].text, "fetch $@");
    assert!(parse(".DEFAULT:\n").graph.default_recipe.is_none());
}

#[test]
fn suffixes_are_added_or_cleared() {
    let mf = parse(".SUFFIXES: .x .y .x\n");
    assert_eq!(mf.graph.suffixes, vec![".x", ".y"]);
    assert!(parse(".SUFFIXES: .x\n.SUFFIXES:\n").graph.suffixes.is_empty());
}

#[test]
fn unknown_lines_are_told() {
    let mut mf = Makefile::new();
    let args = Args::default();
    let mut t = Transcript::new();
    match parse_str("what is this\n", "test", &mut mf, &args, &mut t) {
        Err(Stop::Ask(Query::Warn(s))) => {
            assert_eq!(s, "test:1: warning: ignoring unknown line: what is this")
        }
        other => panic!("expected a warning, not {:?}", other),
    }
}

#[test]
fn assignments_that_cannot_be_read() {
    assert_eq!(
        failure("override nothing\n"),
        "test:1: *** could not parse assignment: nothing.  Stop."
    );
}

#[test]
fn skipped_lines_change_nothing() {
    let src = "ifeq (a,b)\nA = 1\nall: x\n\trun\ninclude nope.mk\nexport B\nendif\n";
    let mf = parse(src);
    assert!(mf.vars.get("A").is_none());
    assert!(mf.graph.entries.is_empty());
    assert!(mf.files_read.is_empty());
}

#[test]
fn conditions_that_were_open_before_count() {
    let mut mf = Makefile::new();
    let args = Args::default();
    let mut open = Vec::new();
    let none = Vec::new();
    let mut t = Transcript::new();
    parse_source_pub("A = 1\n", "test", &mut mf, &args, &mut open, &none, &mut t).unwrap();
    assert_eq!(mf.vars.raw("A"), "1");
    assert!(open.is_empty());
}

#[test]
fn makefiles_named_inside_of_a_condition() {
    let answers = || vec![Answer::Flag(true), Answer::Text("X = 1\n".to_string())];
    let mf = read("ifeq (a,a)\ninclude sub.mk\nY = 2\nendif\n", answers());
    assert_eq!(mf.vars.raw("X"), "1");
    assert_eq!(mf.vars.raw("Y"), "2");
    assert_eq!(mf.files_read, vec!["sub.mk"]);
    let mf = read("ifeq (a,a)\ninclude sub.mk\nelse\nX = 3\nendif\n", answers());
    assert_eq!(mf.vars.raw("X"), "1");
    // Conditions end in the file in which they begin.
    let ends = vec![Answer::Flag(true), Answer::Text("endif\n".to_string())];
    assert!(failure_with("ifeq (a,a)\ninclude sub.mk\nendif\n", ends).starts_with("sub.mk:1: "));
    let open = vec![Answer::Flag(true), Answer::Text("ifeq (a,a)\n".to_string())];
    assert_eq!(
        failure_with("include sub.mk\nendif\n", open),
        "sub.mk:0: *** missing endif.  Stop."
    );
}

#[test]
fn many_makefiles_inside_of_each_other() {
    let mut answers = Vec::new();
    for i in 0..100 {
        answers.push(Answer::Flag(true));
        answers.push(Answer::Text(format!("include {}.mk\n", i + 1)));
    }
    answers.push(Answer::Flag(true));
    answers.push(Answer::Text("X = 1\n".to_string()));
    let mf = read("include 0.mk\n", answers);
    assert_eq!(mf.vars.raw("X"), "1");
    assert_eq!(mf.files_read.len(), 101);
}

#[test]
fn the_list_of_makefiles_grows_while_they_are_read() {
    let answers = vec![
        Answer::Flag(true),
        Answer::Text("A := $(MAKEFILE_LIST)\ninclude b.mk\nC := $(MAKEFILE_LIST)\n".to_string()),
        Answer::Flag(true),
        Answer::Text("B := $(MAKEFILE_LIST)\n".to_string()),
    ];
    let mf = read("X := $(MAKEFILE_LIST).\ninclude a.mk\nD := $(MAKEFILE_LIST)\n", answers);
    assert_eq!(mf.vars.raw("X"), ".");
    assert_eq!(mf.vars.raw("A"), "a.mk");
    assert_eq!(mf.vars.raw("B"), "a.mk b.mk");
    assert_eq!(mf.vars.raw("C"), "a.mk b.mk");
    assert_eq!(mf.vars.raw("D"), "a.mk b.mk");
}

#[test]
fn a_double_colon_target_may_be_the_first() {
    let mf = parse("all:: x\n\tone\nother:\n");
    assert_eq!(mf.first_target.as_deref(), Some("all"));
    assert_eq!(goal(&mf).as_deref(), Some("all"));
    assert_eq!(goal(&parse(".hidden::\nb::\n")).as_deref(), Some("b"));
}

#[test]
fn operators_behind_the_name_of_a_definition() {
    for (op, flavor) in [
        ("", Flavor::Recursive),
        (" =", Flavor::Recursive),
        (" :=", Flavor::Simple),
        (" +=", Flavor::Recursive),
        (" ?=", Flavor::Recursive),
    ] {
        let mf = parse(&format!("define M{}\na\nendef\n", op));
        assert_eq!(mf.vars.raw("M"), "a");
        assert_eq!(mf.vars.get("M").unwrap().flavor, flavor);
    }
}

#[test]
fn definitions_of_what_is_defined() {
    let with = |op: &str| parse(&format!("Y = y\nM = 1\ndefine M {}\na\n$(Y)\nendef\n", op));
    assert_eq!(with("=").vars.raw("M"), "a\n$(Y)");
    assert_eq!(with("?=").vars.raw("M"), "1");
    assert_eq!(with("+=").vars.raw("M"), "1 a\n$(Y)");
    let mf = parse("Y = y\nM := 1\ndefine M +=\n$(Y)\nendef\n");
    assert_eq!(mf.vars.raw("M"), "1 y");
    assert_eq!(mf.vars.get("M").unwrap().flavor, Flavor::Simple);
}

#[test]
fn target_specific_values_may_hold_colons() {
    let mf = parse("prog: P = a:b\nother: Q := c:d e\n");
    let e = mf.graph.entries.get("prog").unwrap();
    assert!(e.prereqs.is_empty());
    assert_eq!((e.target_vars[0].0.as_str(), e.target_vars[0].1.as_str()), ("P", "a:b"));
    let e = mf.graph.entries.get("other").unwrap();
    assert_eq!((e.target_vars[0].0.as_str(), e.target_vars[0].1.as_str()), ("Q", "c:d e"));
    assert!(e.target_vars[0].2 == Flavor::Simple);
}

#[test]
fn exported_names_are_expanded() {
    let mf = parse("N = X\nexport $(N) = v\n");
    assert_eq!(mf.vars.raw("X"), "v");
    assert_eq!(mf.vars.get("X").unwrap().exported, Some(true));
}
