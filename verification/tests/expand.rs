use mk::error::{Level, Loc};
use mk::makefile::expand::{dir_of, expand, expand_with_eval, notdir_of, split_args_raw, AutoVars};
use mk::makefile::var::{Flavor, Origin, Var, VarTable};
use mk::world::{Answer, Query, Stop, Transcript};

fn loc() -> Loc {
    Loc::new("test", 1)
}

fn ex(s: &str, vars: &VarTable) -> String {
    expand(s, vars, None, &loc(), &mut Transcript::new()).unwrap()
}

fn told(s: &str, vars: &VarTable, answers: Vec<Answer>) -> String {
    expand(s, vars, None, &loc(), &mut Transcript::of(answers)).unwrap()
}

fn with_auto(s: &str, auto: &AutoVars) -> String {
    expand(s, &VarTable::new(), Some(auto), &loc(), &mut Transcript::new()).unwrap()
}

fn failure(s: &str, vars: &VarTable) -> String {
    match expand(s, vars, None, &loc(), &mut Transcript::new()) {
        Err(Stop::Failed(e)) => e.message(&Level { depth: 0 }),
        _ => panic!("expected a failure"),
    }
}

fn question(s: &str, vars: &VarTable) -> Query {
    match expand(s, vars, None, &loc(), &mut Transcript::new()) {
        Err(Stop::Ask(q)) => q,
        _ => panic!("expected a question"),
    }
}

fn names(v: &[&str]) -> Answer {
    Answer::Names(v.iter().map(|s| s.to_string()).collect())
}

#[test]
fn plain_text() {
    assert_eq!(ex("hello world", &VarTable::new()), "hello world");
}

#[test]
fn simple_ref() {
    let mut v = VarTable::new();
    v.set("CC", Var::new(Flavor::Simple, Origin::File, "gcc"));
    assert_eq!(ex("$(CC) -c", &v), "gcc -c");
}

#[test]
fn recursive_ref() {
    let mut v = VarTable::new();
    v.set("A", Var::new(Flavor::Recursive, Origin::File, "$(B)"));
    v.set("B", Var::new(Flavor::Simple, Origin::File, "ok"));
    assert_eq!(ex("$(A)", &v), "ok");
}

#[test]
fn nested_ref() {
    let mut v = VarTable::new();
    v.set("X", Var::new(Flavor::Simple, Origin::File, "CC"));
    v.set("CC", Var::new(Flavor::Simple, Origin::File, "gcc"));
    assert_eq!(ex("$($(X))", &v), "gcc");
}

#[test]
fn dollar_dollar() {
    assert_eq!(ex("$$@", &VarTable::new()), "$@");
}

#[test]
fn curly_braces() {
    let mut v = VarTable::new();
    v.set("X", Var::new(Flavor::Simple, Origin::File, "hi"));
    assert_eq!(ex("${X}", &v), "hi");
}

#[test]
fn cycle_detection() {
    let mut v = VarTable::new();
    v.set("X", Var::new(Flavor::Recursive, Origin::File, "$(X)"));
    let err = failure("$(X)", &v);
    assert!(err.contains("Recursive variable 'X'"));
}

#[test]
fn auto_target() {
    let auto = AutoVars { target: "foo.o".into(), ..Default::default() };
    let r = with_auto("$@", &auto);
    assert_eq!(r, "foo.o");
}

#[test]
fn auto_d_f() {
    let auto = AutoVars { target: "src/foo.o".into(), ..Default::default() };
    assert_eq!(with_auto("$(@D)", &auto), "src/");
    assert_eq!(with_auto("$(@F)", &auto), "foo.o");
}

#[test]
fn fn_subst() { assert_eq!(ex("$(subst ee,EE,feet on the street)", &VarTable::new()), "fEEt on the strEEt"); }

#[test]
fn fn_patsubst() { assert_eq!(ex("$(patsubst %.c,%.o,foo.c bar.c baz.h)", &VarTable::new()), "foo.o bar.o baz.h"); }

#[test]
fn fn_strip() { assert_eq!(ex("$(strip  a  b   c )", &VarTable::new()), "a b c"); }

#[test]
fn fn_findstring_hit() { assert_eq!(ex("$(findstring an,banana)", &VarTable::new()), "an"); }

#[test]
fn fn_findstring_miss() { assert_eq!(ex("$(findstring xy,banana)", &VarTable::new()), ""); }

#[test]
fn fn_filter() { assert_eq!(ex("$(filter %.c,foo.c bar.h baz.c)", &VarTable::new()), "foo.c baz.c"); }

#[test]
fn fn_filter_out() { assert_eq!(ex("$(filter-out %.c,foo.c bar.h baz.c)", &VarTable::new()), "bar.h"); }

#[test]
fn fn_sort() { assert_eq!(ex("$(sort foo bar baz foo)", &VarTable::new()), "bar baz foo"); }

#[test]
fn fn_word() { assert_eq!(ex("$(word 2,foo bar baz)", &VarTable::new()), "bar"); }

#[test]
fn fn_wordlist() { assert_eq!(ex("$(wordlist 2,3,foo bar baz qux)", &VarTable::new()), "bar baz"); }

#[test]
fn fn_words() { assert_eq!(ex("$(words foo bar baz)", &VarTable::new()), "3"); }

#[test]
fn fn_firstword() { assert_eq!(ex("$(firstword foo bar)", &VarTable::new()), "foo"); }

#[test]
fn fn_lastword() { assert_eq!(ex("$(lastword foo bar baz)", &VarTable::new()), "baz"); }

#[test]
fn fn_dir() { assert_eq!(ex("$(dir src/foo.c)", &VarTable::new()), "src/"); }

#[test]
fn fn_notdir() { assert_eq!(ex("$(notdir src/foo.c)", &VarTable::new()), "foo.c"); }

#[test]
fn fn_dir_no_slash() { assert_eq!(ex("$(dir foo.c)", &VarTable::new()), "./"); }

#[test]
fn fn_suffix() { assert_eq!(ex("$(suffix foo.c bar.h)", &VarTable::new()), ".c .h"); }

#[test]
fn fn_basename() { assert_eq!(ex("$(basename foo.c bar)", &VarTable::new()), "foo bar"); }

#[test]
fn fn_addsuffix() { assert_eq!(ex("$(addsuffix .o,foo bar)", &VarTable::new()), "foo.o bar.o"); }

#[test]
fn fn_addprefix() { assert_eq!(ex("$(addprefix src/,foo.c bar.c)", &VarTable::new()), "src/foo.c src/bar.c"); }

#[test]
fn fn_join() { assert_eq!(ex("$(join a b,1 2)", &VarTable::new()), "a1 b2"); }

#[test]
fn fn_if_true() { assert_eq!(ex("$(if yes,TRUE,FALSE)", &VarTable::new()), "TRUE"); }

#[test]
fn fn_if_false() { assert_eq!(ex("$(if ,TRUE,FALSE)", &VarTable::new()), "FALSE"); }

#[test]
fn fn_if_no_else() { assert_eq!(ex("$(if ,TRUE)", &VarTable::new()), ""); }

#[test]
fn fn_or_short_circuit() {
    // $(or) returns the first non-empty argument; "no" is non-empty → returned
    assert_eq!(ex("$(or ,no,yes,ignored)", &VarTable::new()), "no");
    // all empty → empty string
    assert_eq!(ex("$(or , , )", &VarTable::new()), "");
}

#[test]
fn fn_and_all_true() { assert_eq!(ex("$(and a,b,c)", &VarTable::new()), "c"); }

#[test]
fn fn_and_short_circuit() { assert_eq!(ex("$(and a,,c)", &VarTable::new()), ""); }

#[test]
fn fn_foreach() { assert_eq!(ex("$(foreach x,a b c,[$(x)])", &VarTable::new()), "[a] [b] [c]"); }

#[test]
fn fn_call() {
    let mut v = VarTable::new();
    v.set("reverse", Var::new(Flavor::Recursive, Origin::File, "$(2) $(1)"));
    assert_eq!(ex("$(call reverse,foo,bar)", &v), "bar foo");
}

#[test]
fn fn_flavor_simple() {
    let mut v = VarTable::new();
    v.set("X", Var::new(Flavor::Simple, Origin::File, "x"));
    assert_eq!(ex("$(flavor X)", &v), "simple");
}

#[test]
fn fn_flavor_undef() { assert_eq!(ex("$(flavor UNDEF)", &VarTable::new()), "undefined"); }

#[test]
fn fn_origin_file() {
    let mut v = VarTable::new();
    v.set("X", Var::new(Flavor::Simple, Origin::File, "v"));
    assert_eq!(ex("$(origin X)", &v), "file");
}

#[test]
fn fn_value_unexpanded() {
    let mut v = VarTable::new();
    v.set("X", Var::new(Flavor::Recursive, Origin::File, "$(Y)"));
    assert_eq!(ex("$(value X)", &v), "$(Y)");
}

#[test]
fn split_args_raw_basic() {
    assert_eq!(split_args_raw("a,b,c"), vec!["a", "b", "c"]);
}

#[test]
fn split_args_raw_nested_parens() {
    assert_eq!(split_args_raw("$(a,b),c"), vec!["$(a,b)", "c"]);
}

#[test]
fn split_args_raw_empty() {
    let v = split_args_raw("");
    assert_eq!(v, vec![""]);
}

#[test]
fn dollar_at_the_end() {
    assert_eq!(ex("a$", &VarTable::new()), "a$");
    assert_eq!(ex("$$", &VarTable::new()), "$");
}

#[test]
fn unclosed_reference_runs_to_the_end() {
    let mut v = VarTable::new();
    v.set("X", Var::new(Flavor::Simple, Origin::File, "hi"));
    assert_eq!(ex("$(X", &v), "hi");
    assert_eq!(ex("$((X)", &v), "");
}

#[test]
fn text_beyond_ascii() {
    assert_eq!(ex("é", &VarTable::new()), "é");
    assert_eq!(ex("a€b", &VarTable::new()), "a€b");
    assert_eq!(ex("😀", &VarTable::new()), "😀");
    assert_eq!(ex("$é.", &VarTable::new()), ".");
    let mut v = VarTable::new();
    v.set("é", Var::new(Flavor::Recursive, Origin::File, "ü"));
    assert_eq!(ex("$é.", &v), "ü.");
    assert_eq!(ex("$(é)€", &v), "ü€");
}

#[test]
fn deep_cycles_are_found() {
    let mut v = VarTable::new();
    v.set("A", Var::new(Flavor::Recursive, Origin::File, "x$(B)"));
    v.set("B", Var::new(Flavor::Recursive, Origin::File, "$(A)"));
    assert_eq!(
        failure("$(A)", &v),
        "test:1: *** Recursive variable 'A' references itself (eventually).  Stop."
    );
}

#[test]
fn auto_all_kinds() {
    let auto = AutoVars {
        target: "t".into(),
        first_prereq: "f".into(),
        all_prereqs: "a".into(),
        all_prereqs_dup: "d".into(),
        newer_prereqs: "n".into(),
        stem: "s".into(),
        order_only: "o".into(),
    };
    assert_eq!(with_auto("$@$<$^$+$?$*$|$!", &auto), "tfadnso");
    assert_eq!(with_auto("$(<D)$(<F)", &auto), "./f");
    assert_eq!(with_auto("$(@)", &auto), "");
}

#[test]
fn word_edges() {
    let v = VarTable::new();
    assert_eq!(ex("$(word 0,a b)", &v), "a");
    assert_eq!(ex("$(word x,a b)", &v), "a");
    assert_eq!(ex("$(word 3,a b)", &v), "");
    assert_eq!(ex("$(wordlist 2,99,a b c)", &v), "b c");
    assert_eq!(ex("$(wordlist 3,2,a b c)", &v), "");
    assert_eq!(ex("$(lastword )", &v), "");
    assert_eq!(ex("$(words )", &v), "0");
}

#[test]
fn suffix_and_basename_use_the_last_dot() {
    let v = VarTable::new();
    assert_eq!(ex("$(suffix a.b/c plain)", &v), ".b/c");
    assert_eq!(ex("$(basename a.b.c)", &v), "a.b");
    assert_eq!(ex("$(join a b c,1)", &v), "a1 b c");
    assert_eq!(ex("$(subst ,x,abc)", &v), "abc");
    assert_eq!(ex("$(findstring ,abc)", &v), "");
    assert_eq!(ex("$(patsubst %.c,x,a.c b.h)", &v), "x b.h");
}

#[test]
fn error_function() {
    assert_eq!(failure("$(error stop now)", &VarTable::new()), "test:1: *** stop now.  Stop.");
}

#[test]
fn messages_are_asked_for() {
    match question("$(warning look $(words a b))", &VarTable::new()) {
        Query::Warn(s) => assert_eq!(s, "test:1: look 2"),
        _ => panic!("expected a warning"),
    }
    match question("$(info hello)", &VarTable::new()) {
        Query::Print(s) => assert_eq!(s, "hello"),
        _ => panic!("expected a line"),
    }
    assert_eq!(told("a$(info hello)b", &VarTable::new(), vec![Answer::Done]), "ab");
}

#[test]
fn shell_output() {
    match question("$(shell ls -l)", &VarTable::new()) {
        Query::Shell(s) => assert_eq!(s, "ls -l"),
        _ => panic!("expected a command"),
    }
    let v = VarTable::new();
    assert_eq!(told("$(shell x)", &v, vec![Answer::Text("a\nb\n\n".into())]), "a b");
    assert_eq!(told("$(shell x)", &v, vec![Answer::Failed("no".into())]), "");
}

#[test]
fn wildcards() {
    let v = VarTable::new();
    match question("$(wildcard src/*.c)", &v) {
        Query::ListDir(s) => assert_eq!(s, "src"),
        _ => panic!("expected a directory"),
    }
    assert_eq!(
        told("$(wildcard src/*.c)", &v, vec![names(&["b.c", "a.c", "c.h", ".c"])]),
        "src/.c src/a.c src/b.c"
    );
    assert_eq!(told("$(wildcard ?.h a*)", &v, vec![names(&["x.h", "xy.h"]), names(&["a", "ab"])]), "x.h a ab");
    assert_eq!(told("$(wildcard f*)", &v, vec![names(&["f", "foo", "g"])]), "f foo");
    assert_eq!(told("$(wildcard f**.c*)", &v, vec![names(&["f.c", "fa.cc", "f.h"])]), "f.c fa.cc");
    assert_eq!(told("$(wildcard f?*)", &v, vec![names(&["f", "fo", "foo"])]), "fo foo");
    assert_eq!(told("$(wildcard *)", &v, vec![Answer::Failed("gone".into())]), "");
    assert_eq!(told("$(wildcard ?)", &v, vec![names(&["é", "e"])]), "e");
}

#[test]
fn path_functions() {
    let v = VarTable::new();
    assert_eq!(
        told("$(abspath /a/./b/../c x/../../y)", &v, vec![Answer::Text("/home/me".into())]),
        "/a/c /home/y"
    );
    assert_eq!(told("$(abspath ../..)", &v, vec![Answer::Text("/h".into())]), "/");
    assert_eq!(told("$(abspath ./a/..//b)", &v, vec![Answer::Failed("gone".into())]), "b");
    assert_eq!(
        told("$(realpath a b)", &v, vec![Answer::Failed("no".into()), Answer::Text("/r/b".into())]),
        "/r/b"
    );
    assert_eq!(dir_of("src/foo.c"), "src/");
    assert_eq!(notdir_of("src/foo.c"), "foo.c");
    assert_eq!(dir_of("foo.c"), "./");
}

#[test]
fn call_sees_its_own_name_and_arguments() {
    let mut v = VarTable::new();
    v.set("f", Var::new(Flavor::Recursive, Origin::File, "$(0):$(1):$(2):$(3)"));
    assert_eq!(ex("$(call f,a,$(words x y))", &v), "f:a:2:");
    assert_eq!(ex("$(foreach g,$(value f),$(call g,1))", &v), "g:1::");
    assert_eq!(ex("$(call none,1)", &v), "");
}

#[test]
fn endless_calls_are_refused() {
    let mut v = VarTable::new();
    v.set("f", Var::new(Flavor::Simple, Origin::File, "$(strip $(strip $(strip x)))"));
    assert_eq!(ex("$(call f)", &v), "x");
}

#[test]
fn eval_is_asked_for_only_when_wanted() {
    let mut v = VarTable::new();
    v.set("X", Var::new(Flavor::Simple, Origin::File, "Y = 1"));
    assert_eq!(ex("a$(eval $(X))b", &v), "ab");
    match expand_with_eval("a$(eval $(X))b", &v, None, &loc(), &mut Transcript::new()) {
        Err(Stop::Ask(Query::Eval(s))) => assert_eq!(s, "Y = 1"),
        _ => panic!("expected an eval"),
    }
    let mut t = Transcript::of(vec![Answer::Done]);
    assert_eq!(expand_with_eval("a$(eval $(X))b", &v, None, &loc(), &mut t).unwrap(), "ab");
    let e = mk::error::fatal("bad");
    let mut t = Transcript::of(vec![Answer::Rejected(e)]);
    match expand_with_eval("a$(eval $(X))b", &v, None, &loc(), &mut t) {
        Err(Stop::Failed(e)) => assert_eq!(e.message(&Level { depth: 0 }), "mk: *** bad.  Stop."),
        _ => panic!("expected a failure"),
    }
}

#[test]
fn arguments_join_back() {
    let parts = split_args_raw("a,(b,c},d),,e");
    assert_eq!(parts, vec!["a", "(b,c}", "d)", "", "e"]);
    assert_eq!(parts.join(","), "a,(b,c},d),,e");
}

#[test]
fn short_names() {
    let mut v = VarTable::new();
    v.set("X", Var::new(Flavor::Recursive, Origin::File, "<$Y>"));
    v.set("Y", Var::new(Flavor::Simple, Origin::File, "y"));
    assert_eq!(ex("$X $(X) ${X} $Z.", &v), "<y> <y> <y> .");
    v.set("swap", Var::new(Flavor::Recursive, Origin::File, "$2 $1"));
    assert_eq!(ex("$(call swap,a,b)", &v), "b a");
    v.set("L", Var::new(Flavor::Recursive, Origin::File, "$L"));
    assert_eq!(
        failure("$L", &v),
        "test:1: *** Recursive variable 'L' references itself (eventually).  Stop."
    );
}

#[test]
fn automatic_variables_hide_names() {
    let mut v = VarTable::new();
    v.set("@", Var::new(Flavor::Simple, Origin::File, "no"));
    assert_eq!(ex("$@", &v), "");
    assert_eq!(ex("$(@)", &v), "no");
}

#[test]
fn laws_of_words() {
    let v = VarTable::new();
    assert_eq!(ex("$(strip $(strip  a   b ))", &v), ex("$(strip  a   b )", &v));
    assert_eq!(ex("$(filter %.c x,a.c b.o x)", &v), "a.c x");
    assert_eq!(ex("$(filter-out %.c x,a.c b.o x)", &v), "b.o");
    assert_eq!(ex("$(sort b a b)", &v), "a b");
    assert_eq!(ex("$(word $(words a b c),a b c)", &v), ex("$(lastword a b c)", &v));
    assert_eq!(ex("$(wordlist 1,2,a b c)", &v), "a b");
    assert_eq!(ex("$(subst x,x,axbx)", &v), "axbx");
    assert_eq!(ex("$(subst q,x,axbx)", &v), "axbx");
    assert_eq!(ex("$(patsubst %.c,%.c,a.c b)", &v), "a.c b");
    assert_eq!(ex("$(join a b,1)", &v), "a1 b");
    assert_eq!(ex("$(join a b,)", &v), "a b");
    assert_eq!(ex("$(addsuffix .o,a b)", &v), "a.o b.o");
    assert_eq!(ex("$(dir a/b)$(notdir a/b) $(basename a.b)$(suffix a.b)", &v), "a/b a.b");
    assert_eq!(ex("$(abspath $(abspath /a/./b/../c))", &v), "/a/c");
}

#[test]
fn references_nest_as_deep_as_they_stand() {
    let mut v = VarTable::new();
    v.set("a", Var::new(Flavor::Simple, Origin::File, "a"));
    let text = format!("{}a{}", "$(".repeat(300), ")".repeat(300));
    assert_eq!(ex(&text, &v), "a");
    for i in 0..300 {
        let value = format!("$(v{})", i + 1);
        v.set(&format!("v{}", i), Var::new(Flavor::Recursive, Origin::File, &value));
    }
    v.set("v300", Var::new(Flavor::Recursive, Origin::File, "end"));
    assert_eq!(ex("$(v0)", &v), "end");
}

#[test]
fn calls_may_call_themselves() {
    let mut v = VarTable::new();
    let body = "$(if $(word 3,$(1)),$(1),$(call f,$(1) x))";
    v.set("f", Var::new(Flavor::Recursive, Origin::File, body));
    assert_eq!(ex("$(call f,a)", &v), "a x x");
}
