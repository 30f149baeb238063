use mk::args::Args;
use mk::error::{Level, Loc};
use mk::makefile::exec::{Executor, Outcome};
use mk::makefile::graph::BuildGraph;
use mk::makefile::rule::{Prereq, RecipeLine, Rule};
use mk::makefile::var::{Flavor, Origin, Var, VarTable};
use mk::world::{Answer, Query, Stop, Transcript};

/// Answers with what `world` says, until the goals are built, and returns the
/// outcome and everything that was asked, in words.
fn build(
    args: &Args,
    vars: &VarTable,
    graph: &mut BuildGraph,
    goals: &[&str],
    world: &dyn Fn(&Query) -> Answer,
) -> (Outcome, Vec<String>) {
    let goals: Vec<String> = goals.iter().map(|s| s.to_string()).collect();
    let mut said = Vec::new();
    let mut t = Transcript::new();
    loop {
        let mut exec = Executor::new(args, vars, 0, "/bin/mk");
        match exec.build_all(&goals, graph, &mut t) {
            Ok(outcome) => return (outcome, said),
            Err(Stop::Ask(q)) => {
                let answer = world(&q);
                said.push(words(&q));
                t = t.add(answer);
            }
            Err(Stop::Failed(e)) => panic!("{}", e.message(&Level { depth: 0 })),
        }
    }
}

fn words(q: &Query) -> String {
    match q {
        Query::Print(s) => format!("print {}", s),
        Query::Warn(s) => format!("warn {}", s),
        Query::Report(e) => format!("report {}", e.message(&Level { depth: 0 })),
        Query::Run { shell, command, .. } => format!("run {} {}", shell, command),
        Query::Touch(s) => format!("touch {}", s),
        Query::Create(s) => format!("create {}", s),
        Query::Exists(s) => format!("exists {}", s),
        Query::ModTime(s) => format!("time {}", s),
        _ => panic!("unexpected"),
    }
}

/// No file is there, and every command succeeds, unless it begins with `false`.
fn nothing_there(q: &Query) -> Answer {
    match q {
        Query::Exists(_) => Answer::Flag(false),
        Query::ModTime(_) => Answer::Failed("gone".to_string()),
        Query::Run { command, .. } => {
            if command.starts_with("false") {
                Answer::Exit(Some(3))
            } else if command.starts_with("killed") {
                Answer::Exit(None)
            } else if command.starts_with("nosuch") {
                Answer::Failed("not found".to_string())
            } else {
                Answer::Exit(Some(0))
            }
        }
        _ => Answer::Done,
    }
}

/// What was said of running, showing and reporting.
fn doings(said: Vec<String>) -> Vec<String> {
    said.into_iter().filter(|s| !s.starts_with("exists") && !s.starts_with("time")).collect()
}

fn with_recipe(target: &str, lines: &[&str]) -> BuildGraph {
    let mut g = BuildGraph::new();
    add_recipe(&mut g, target, lines);
    g
}

fn add_recipe(g: &mut BuildGraph, target: &str, lines: &[&str]) {
    let e = g.entry(target);
    e.recipe = lines.iter().map(|s| RecipeLine::new(s)).collect();
    e.recipe_loc = Some(Loc::new("Makefile", 2));
}

#[test]
fn auto_vars_computed() {
    let args = Args::default();
    let vars = VarTable::new();
    let exec = Executor::new(&args, &vars, 0, "mk");
    let auto = exec.make_auto_full(
        "foo.o",
        &["foo.c".to_string(), "foo.h".to_string()],
        &[],
        &["foo.c".to_string()],
        "foo",
    );
    assert_eq!(auto.target, "foo.o");
    assert_eq!(auto.first_prereq, "foo.c");
    assert_eq!(auto.all_prereqs, "foo.c foo.h");
    assert_eq!(auto.newer_prereqs, "foo.c");
    assert_eq!(auto.stem, "foo");
}

#[test]
fn auto_vars_dedup() {
    let args = Args::default();
    let vars = VarTable::new();
    let exec = Executor::new(&args, &vars, 0, "mk");
    let auto = exec.make_auto("foo.o", &["a.c".to_string(), "a.c".to_string(), "b.c".to_string()], "");
    assert_eq!(auto.all_prereqs, "a.c b.c");
    assert_eq!(auto.all_prereqs_dup, "a.c a.c b.c");
}

#[test]
fn a_recipe_is_shown_and_run() {
    let mut g = with_recipe("all", &["echo $@", "@quiet $(MAKE) ${MAKE}", "sub $$(MAKE)"]);
    let (outcome, said) = build(&Args::default(), &VarTable::new(), &mut g, &["all"], &nothing_there);
    assert_eq!(outcome, Outcome { failures: 0, outdated: false });
    assert_eq!(
        doings(said),
        vec![
            "print echo all",
            "run /bin/sh echo all",
            "run /bin/sh quiet  ",
            "print sub /bin/mk",
            "run /bin/sh sub /bin/mk",
        ]
    );
}

#[test]
fn the_shell_is_a_variable() {
    let mut vars = VarTable::new();
    vars.set("SHELL", Var::new(Flavor::Simple, Origin::File, "/bin/zsh"));
    let mut g = with_recipe("all", &["@x"]);
    let (_, said) = build(&Args::default(), &vars, &mut g, &["all"], &nothing_there);
    assert_eq!(doings(said), vec!["run /bin/zsh x"]);
    vars.set("BIN", Var::new(Flavor::Recursive, Origin::File, "/usr/bin"));
    vars.set("SHELL", Var::new(Flavor::Recursive, Origin::File, "$(BIN)/dash"));
    let mut g = with_recipe("all", &["@x"]);
    let (_, said) = build(&Args::default(), &vars, &mut g, &["all"], &nothing_there);
    assert_eq!(doings(said), vec!["run /usr/bin/dash x"]);
}

#[test]
fn the_environment_of_a_command() {
    let mut vars = VarTable::new();
    vars.set("A", Var::new(Flavor::Simple, Origin::File, "1"));
    vars.set_exported("A", Some(true));
    let args = Args::default();
    let mut g = with_recipe("all", &["@x"]);
    let mut t = Transcript::of(vec![
        Answer::Failed("gone".to_string()),
        Answer::Failed("gone".to_string()),
    ]);
    let mut exec = Executor::new(&args, &vars, 4, "mk");
    match exec.build_all(&["all".to_string()], &mut g, &mut t) {
        Err(Stop::Ask(Query::Run { exports, .. })) => {
            assert_eq!(exports.get("A").unwrap(), "1");
            assert_eq!(exports.get("MAKELEVEL").unwrap(), "5");
        }
        other => panic!("expected a command, not {:?}", other),
    }
}

#[test]
fn a_failing_command_ends_the_recipe() {
    let mut g = with_recipe("all", &["@false", "@never"]);
    let (outcome, said) = build(&Args::default(), &VarTable::new(), &mut g, &["all"], &nothing_there);
    assert_eq!(outcome.failures, 1);
    assert_eq!(
        doings(said),
        vec![
            "run /bin/sh false",
            "report mk: *** [Makefile:2: all] Error 3",
            "report Makefile:2: *** [all] Error 3.  Stop.",
        ]
    );
}

#[test]
fn a_killed_command_counts_as_one() {
    let mut g = with_recipe("all", &["@killed"]);
    let (_, said) = build(&Args::default(), &VarTable::new(), &mut g, &["all"], &nothing_there);
    assert_eq!(doings(said)[1], "report mk: *** [Makefile:2: all] Error 1");
}

#[test]
fn a_command_that_cannot_be_run() {
    let mut g = with_recipe("all", &["@nosuch"]);
    let (outcome, said) = build(&Args::default(), &VarTable::new(), &mut g, &["all"], &nothing_there);
    assert_eq!(outcome.failures, 1);
    assert_eq!(
        doings(said)[1],
        "report Makefile:2: *** recipe for target 'all' failed: not found.  Stop."
    );
    let mut g = with_recipe("all", &["@-nosuch"]);
    let (outcome, said) = build(&Args::default(), &VarTable::new(), &mut g, &["all"], &nothing_there);
    assert_eq!(outcome.failures, 0);
    assert_eq!(doings(said).len(), 1);
}

#[test]
fn errors_may_be_ignored() {
    let mut g = with_recipe("all", &["@-false", "@next"]);
    let (outcome, said) = build(&Args::default(), &VarTable::new(), &mut g, &["all"], &nothing_there);
    assert_eq!(outcome.failures, 0);
    assert_eq!(
        doings(said),
        vec![
            "run /bin/sh false",
            "report Makefile:2: ignoring errors from recipe for 'all'",
            "run /bin/sh next",
        ]
    );
    let args = Args { ignore_errors: true, ..Args::default() };
    let mut g = with_recipe("all", &["@false", "@next"]);
    let (outcome, _) = build(&args, &VarTable::new(), &mut g, &["all"], &nothing_there);
    assert_eq!(outcome.failures, 0);
}

#[test]
fn a_dry_run_only_shows() {
    let args = Args { dry_run: true, ..Args::default() };
    let mut g = with_recipe("all", &["a", "+b", "@c"]);
    let (_, said) = build(&args, &VarTable::new(), &mut g, &["all"], &nothing_there);
    assert_eq!(doings(said), vec!["print a", "print b", "run /bin/sh b"]);
}

#[test]
fn a_silent_run_shows_nothing() {
    let args = Args { silent: true, ..Args::default() };
    let mut g = with_recipe("all", &["a"]);
    let (_, said) = build(&args, &VarTable::new(), &mut g, &["all"], &nothing_there);
    assert_eq!(doings(said), vec!["run /bin/sh a"]);
}

#[test]
fn touching_instead_of_building() {
    let args = Args { touch: true, ..Args::default() };
    let mut g = with_recipe("all", &["a"]);
    let (outcome, said) = build(&args, &VarTable::new(), &mut g, &["all"], &nothing_there);
    assert_eq!(outcome.failures, 0);
    assert_eq!(doings(said), vec!["print touch all", "create all"]);
    let there = |q: &Query| match q {
        Query::Exists(_) => Answer::Flag(true),
        q => nothing_there(q),
    };
    let (_, said) = build(&args, &VarTable::new(), &mut with_recipe("all", &["a"]), &["all"], &there);
    assert_eq!(doings(said), vec!["print touch all", "touch all"]);
}

#[test]
fn a_question_is_answered_by_the_outcome() {
    let args = Args { question: true, ..Args::default() };
    let mut g = with_recipe("all", &["a"]);
    let (outcome, said) = build(&args, &VarTable::new(), &mut g, &["all"], &nothing_there);
    assert_eq!(outcome, Outcome { failures: 0, outdated: true });
    assert!(doings(said).is_empty());
    let recent = |q: &Query| match q {
        Query::ModTime(_) => Answer::Time(1),
        q => nothing_there(q),
    };
    let (outcome, _) = build(&args, &VarTable::new(), &mut with_recipe("all", &["a"]), &["all"], &recent);
    assert_eq!(outcome, Outcome { failures: 0, outdated: false });
}

#[test]
fn no_rule_to_make_a_target() {
    let mut g = BuildGraph::new();
    let (outcome, said) = build(&Args::default(), &VarTable::new(), &mut g, &["x"], &nothing_there);
    assert_eq!(outcome.failures, 1);
    assert_eq!(doings(said), vec!["report mk: *** No rule to make target 'x'.  Stop."]);
}

#[test]
fn the_default_recipe() {
    let mut g = BuildGraph::new();
    g.default_recipe = Some(vec![RecipeLine::new("@fetch $@")]);
    let (outcome, said) = build(&Args::default(), &VarTable::new(), &mut g, &["x"], &nothing_there);
    assert_eq!(outcome.failures, 0);
    assert_eq!(doings(said), vec!["run /bin/sh fetch x"]);
}

#[test]
fn double_colon_rules_run_one_by_one() {
    let mut g = BuildGraph::new();
    for name in ["a", "b"] {
        let prereqs = vec![Prereq::normal(name)];
        let mut rule = Rule::new(vec!["all".to_string()], prereqs, true, Loc::new("Makefile", 1));
        rule.recipe = vec![RecipeLine::new("@make $<")];
        g.entry("all").dc_rules.push(rule);
    }
    add_recipe(&mut g, "a", &["@a"]);
    add_recipe(&mut g, "b", &["@b"]);
    let (_, said) = build(&Args::default(), &VarTable::new(), &mut g, &["all"], &nothing_there);
    // What they depend on comes first.
    assert_eq!(
        doings(said),
        vec!["run /bin/sh a", "run /bin/sh b", "run /bin/sh make a", "run /bin/sh make b"]
    );
}

#[test]
fn a_failure_ends_the_build_unless_it_is_to_go_on() {
    let graph = || {
        let mut g = BuildGraph::new();
        add_recipe(&mut g, "a", &["@false"]);
        add_recipe(&mut g, "b", &["@fine"]);
        g
    };
    let (outcome, said) =
        build(&Args::default(), &VarTable::new(), &mut graph(), &["a", "b"], &nothing_there);
    assert_eq!(outcome.failures, 1);
    assert!(!said.contains(&"run /bin/sh fine".to_string()));
    let args = Args { keep_going: true, ..Args::default() };
    let (outcome, said) = build(&args, &VarTable::new(), &mut graph(), &["a", "b"], &nothing_there);
    assert_eq!(outcome.failures, 1);
    assert!(said.contains(&"run /bin/sh fine".to_string()));
}

#[test]
fn newer_prerequisites_are_told() {
    let mut g = with_recipe("all", &["@ar $? of $^ and $|"]);
    g.entry("all").prereqs =
        vec![Prereq::normal("old"), Prereq::normal("new"), Prereq::order_only("dir")];
    let times = |q: &Query| match q {
        Query::ModTime(p) => Answer::Time(if p == "new" { 9 } else if p == "old" { 1 } else { 5 }),
        Query::Exists(_) => Answer::Flag(true),
        q => nothing_there(q),
    };
    let (_, said) = build(&Args::default(), &VarTable::new(), &mut g, &["all"], &times);
    assert_eq!(doings(said), vec!["run /bin/sh ar new of old new and dir"]);
}

#[test]
fn circular_dependencies_are_told_and_dropped() {
    let mut g = BuildGraph::new();
    add_recipe(&mut g, "a", &["@one"]);
    add_recipe(&mut g, "b", &["@two"]);
    g.entry("a").prereqs = vec![Prereq::normal("b")];
    g.entry("b").prereqs = vec![Prereq::normal("a")];
    let (_, said) = build(&Args::default(), &VarTable::new(), &mut g, &["a"], &nothing_there);
    assert_eq!(
        doings(said),
        vec!["warn mk: Circular b <- a dependency dropped.", "run /bin/sh two", "run /bin/sh one"]
    );
}

#[test]
fn what_depends_on_a_failed_target_is_passed_over() {
    let graph = || {
        let mut g = BuildGraph::new();
        add_recipe(&mut g, "top", &["@top"]);
        add_recipe(&mut g, "a", &["@after"]);
        add_recipe(&mut g, "b", &["@false"]);
        add_recipe(&mut g, "c", &["@fine"]);
        g.entry("top").prereqs = vec![Prereq::normal("a"), Prereq::normal("c")];
        g.entry("a").prereqs = vec![Prereq::order_only("b")];
        g
    };
    let args = Args { keep_going: true, ..Args::default() };
    let (outcome, said) = build(&args, &VarTable::new(), &mut graph(), &["top"], &nothing_there);
    assert_eq!(outcome, Outcome { failures: 3, outdated: false });
    let runs: Vec<String> = said.into_iter().filter(|s| s.starts_with("run")).collect();
    assert_eq!(runs, vec!["run /bin/sh false", "run /bin/sh fine"]);
}

#[test]
fn a_double_colon_target_waits_for_its_prerequisites_too() {
    let mut g = BuildGraph::new();
    add_recipe(&mut g, "b", &["@false"]);
    let prereqs = vec![Prereq::normal("b")];
    let mut rule = Rule::new(vec!["a".to_string()], prereqs, true, Loc::new("Makefile", 1));
    rule.recipe = vec![RecipeLine::new("@after")];
    g.entry("a").dc_rules.push(rule);
    let args = Args { keep_going: true, ..Args::default() };
    let (outcome, said) = build(&args, &VarTable::new(), &mut g, &["b", "a"], &nothing_there);
    assert_eq!(outcome.failures, 2);
    assert!(!said.contains(&"run /bin/sh after".to_string()));
}

#[test]
fn a_rule_without_a_recipe_is_no_failure() {
    let mut g = BuildGraph::new();
    add_recipe(&mut g, "b", &["@make b"]);
    g.entry("all").prereqs = vec![Prereq::normal("b")];
    g.entry("all").phony = true;
    g.entry("empty").loc = Some(Loc::new("Makefile", 1));
    g.default_recipe = Some(vec![RecipeLine::new("@fetch $@")]);
    let (outcome, said) =
        build(&Args::default(), &VarTable::new(), &mut g, &["all", "empty"], &nothing_there);
    assert_eq!(outcome, Outcome { failures: 0, outdated: false });
    assert_eq!(doings(said), vec!["run /bin/sh make b"]);
    // A target that no rule is about still takes the default recipe, phony or not.
    g.entry("lone").phony = true;
    let (_, said) =
        build(&Args::default(), &VarTable::new(), &mut g, &["lone"], &nothing_there);
    assert_eq!(doings(said), vec!["run /bin/sh fetch lone"]);
}

fn double_colon(g: &mut BuildGraph, target: &str, prereqs: &[&str], line: &str) {
    let prereqs = prereqs.iter().map(|p| Prereq::normal(p)).collect();
    let mut rule = Rule::new(vec![target.to_string()], prereqs, true, Loc::new("Makefile", 1));
    rule.recipe = vec![RecipeLine::new(line)];
    g.entry(target).dc_rules.push(rule);
}

#[test]
fn a_failed_double_colon_rule_counts() {
    let graph = || {
        let mut g = BuildGraph::new();
        double_colon(&mut g, "all", &[], "@false one");
        double_colon(&mut g, "all", &[], "@two");
        double_colon(&mut g, "all", &[], "@nosuch");
        double_colon(&mut g, "all", &[], "@four");
        g
    };
    let args = Args { keep_going: true, ..Args::default() };
    let (outcome, said) = build(&args, &VarTable::new(), &mut graph(), &["all"], &nothing_there);
    assert_eq!(outcome, Outcome { failures: 1, outdated: false });
    assert_eq!(
        doings(said),
        vec![
            "run /bin/sh false one",
            "report mk: *** [Makefile:1: all] Error 3",
            "run /bin/sh two",
            "run /bin/sh nosuch",
            "report Makefile:1: *** [all] Error 3.  Stop.",
            "run /bin/sh four",
            "report Makefile:1: *** recipe for target 'all' failed: not found.  Stop.",
        ]
    );
    let (outcome, said) =
        build(&Args::default(), &VarTable::new(), &mut graph(), &["all"], &nothing_there);
    assert_eq!(outcome.failures, 1);
    assert!(!said.contains(&"run /bin/sh two".to_string()));
    let args = Args { ignore_errors: true, keep_going: true, ..Args::default() };
    let (outcome, _) = build(&args, &VarTable::new(), &mut graph(), &["all"], &nothing_there);
    assert_eq!(outcome.failures, 0);
}

#[test]
fn newer_prerequisites_of_double_colon_rules_count() {
    let mut g = BuildGraph::new();
    double_colon(&mut g, "lib", &["a.o"], "@put $<");
    let times = |q: &Query| match q {
        Query::ModTime(p) => Answer::Time(if p == "a.o" { 9 } else { 5 }),
        q => nothing_there(q),
    };
    let (_, said) = build(&Args::default(), &VarTable::new(), &mut g, &["lib"], &times);
    assert_eq!(doings(said), vec!["run /bin/sh put a.o"]);
}

#[test]
fn a_touched_target_has_its_time_asked_for_again() {
    let args = Args { touch: true, ..Args::default() };
    let mut g = with_recipe("a", &["x"]);
    build(&args, &VarTable::new(), &mut g, &["a"], &nothing_there);
    assert!(g.entry("a").mtime.is_none());
}
