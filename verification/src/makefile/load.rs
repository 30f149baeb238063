//! Finding makefiles, and everything that is known before the first line of one
//! is read.

use vstd::prelude::*;
use crate::args::{Args, ArgsView};
use crate::error;
use crate::error::{Error, ErrorView};
use crate::names::NameMap;
use crate::order;
use crate::text;
use crate::text::{
    append_str,
    chars_of,
    dup_all,
    join_strings,
    owned,
    same_text,
    string_of,
    Dup,
};
use crate::world;
use crate::world::{is_yes, Answer, AnswerView, Query, QueryView, Stop, StopView, Told, Transcript};
use super::graph;
use super::graph::{BuildGraph, GraphView};
use super::implicit;
use super::implicit::{builtin_rules, builtin_vars, default_suffixes};
use super::parse;
use super::parse::{note_file, parse_source_pub, parse_str, CondFrame};
use super::var;
use super::var::{Flavor, Origin, Var, VarTable, VarTableView, VarView};
use super::{empty_makefile, Makefile, MakefileView};

verus! {

// ── Initial variables ───────────────────────────────────────────────────────

/// The variables with the first `n` of some built-in ones set.
pub open spec fn with_builtins(
    vars: VarTableView,
    list: Seq<(Seq<char>, Seq<char>)>,
    n: int,
) -> VarTableView
    decreases n,
{
    if n <= 0 {
        vars
    } else {
        with_builtins(vars, list, n - 1).set(
            list[n - 1].0,
            var::plain_var(Flavor::Recursive, Origin::Default, list[n - 1].1),
        )
    }
}

/// The variables with the first `n` assignments of the command line made.
pub open spec fn with_overrides(
    vars: VarTableView,
    list: Seq<(Seq<char>, Seq<char>)>,
    n: int,
) -> VarTableView
    decreases n,
{
    if n <= 0 {
        vars
    } else {
        with_overrides(vars, list, n - 1).set(
            list[n - 1].0,
            var::plain_var(Flavor::Simple, Origin::CommandLine, list[n - 1].1),
        )
    }
}

/// A variable from the environment.
pub open spec fn env_var(value: Seq<char>) -> VarView {
    var::plain_var(Flavor::Simple, Origin::Environment, value)
}

/// The variables with those of the environment set, where nothing stronger has
/// set them.
pub open spec fn with_env(vars: VarTableView, env: Map<Seq<char>, Seq<char>>) -> VarTableView {
    VarTableView {
        vars: Map::new(
            |n: Seq<char>| vars.has(n) || env.dom().contains(n),
            |n: Seq<char>|
                if env.dom().contains(n) && vars.may_set(n, Origin::Environment) {
                    env_var(env[n])
                } else {
                    vars.vars[n]
                },
        ),
        ..vars
    }
}

/// The variables with those of the environment set, where the command line has
/// not set them.
pub open spec fn with_env_forced(
    vars: VarTableView,
    env: Map<Seq<char>, Seq<char>>,
) -> VarTableView {
    VarTableView {
        vars: Map::new(
            |n: Seq<char>| vars.has(n) || env.dom().contains(n),
            |n: Seq<char>|
                if env.dom().contains(n) && (vars.has(n) ==> var::strength(vars.vars[n].origin)
                    < var::strength(Origin::CommandLine)) {
                    env_var(env[n])
                } else {
                    vars.vars[n]
                },
        ),
        ..vars
    }
}

/// The part of the environment that the first `i` names make up.
spec fn env_part(env: Map<Seq<char>, Seq<char>>, names: Seq<Seq<char>>, i: int) -> Map<
    Seq<char>,
    Seq<char>,
> {
    env.restrict(names.take(i).to_set())
}

proof fn lemma_env_part(env: Map<Seq<char>, Seq<char>>, names: Seq<Seq<char>>, i: int)
    requires
        order::increasing(names),
        names.to_set() == env.dom(),
        0 <= i < names.len(),
    ensures
        env.dom().contains(names[i]),
        !env_part(env, names, i).dom().contains(names[i]),
        env_part(env, names, i + 1) == env_part(env, names, i).insert(names[i], env[names[i]]),
{
    let a = names.take(i);
    let b = names.take(i + 1);
    assert(names.contains(names[i]));
    assert(env.dom().contains(names[i]));
    assert forall|x: Seq<char>| b.contains(x) == (a.contains(x) || x == names[i]) by {
        if a.contains(x) {
            let k = choose|k: int| 0 <= k < a.len() && a[k] == x;
            assert(b[k] == x);
        }
        assert(b[i] == names[i]);
        if b.contains(x) && x != names[i] {
            let k = choose|k: int| 0 <= k < b.len() && b[k] == x;
            assert(a[k] == x);
        }
    }
    if a.contains(names[i]) {
        let k = choose|k: int| 0 <= k < a.len() && a[k] == names[i];
        assert(order::less(names[k], names[i]));
        order::lemma_one_way(names[k], names[i]);
    }
    assert(env_part(env, names, i + 1) =~= env_part(env, names, i).insert(
        names[i],
        env[names[i]],
    ));
}

fn add_env(vars: &mut VarTable, env: &NameMap<String>)
    ensures
        final(vars)@ == with_env(old(vars)@, env@),
{
    env.listing();
    let ghost names = env.names();
    let n = env.len();
    let mut i: usize = 0;
    proof {
        assert(with_env(vars@, env_part(env@, names, 0)).vars =~= vars@.vars);
    }
    while i < n
        invariant
            i <= n,
            n == names.len(),
            names == env.names(),
            order::increasing(names),
            names.to_set() == env@.dom(),
            forall|k: int|
                0 <= k < names.len() ==> env@.dom().contains(#[trigger] names[k])
                    && env@[names[k]] == env.nth(k),
            vars@ == with_env(old(vars)@, env_part(env@, names, i as int)),
        decreases n - i,
    {
        let ghost part = env_part(env@, names, i as int);
        let ghost before = vars@;
        let name = env.name_at(i);
        let value = env.value_at(i);
        vars.set(
            name,
            Var {
                flavor: Flavor::Simple,
                origin: Origin::Environment,
                raw: value.dup(),
                exported: None,
            },
        );
        proof {
            lemma_env_part(env@, names, i as int);
            assert(vars@.vars =~= with_env(old(vars)@, env_part(env@, names, i + 1)).vars);
        }
        i = i + 1;
    }
    proof {
        assert(names.take(i as int) =~= names);
        assert(env_part(env@, names, i as int) =~= env@);
    }
}

/// Sets the variables of the environment over those of the makefiles (`-e`).
pub fn force_env(vars: &mut VarTable, env: &NameMap<String>)
    ensures
        final(vars)@ == with_env_forced(old(vars)@, env@),
{
    env.listing();
    let ghost names = env.names();
    let n = env.len();
    let mut i: usize = 0;
    proof {
        assert(with_env_forced(vars@, env_part(env@, names, 0)).vars =~= vars@.vars);
    }
    while i < n
        invariant
            i <= n,
            n == names.len(),
            names == env.names(),
            order::increasing(names),
            names.to_set() == env@.dom(),
            forall|k: int|
                0 <= k < names.len() ==> env@.dom().contains(#[trigger] names[k])
                    && env@[names[k]] == env.nth(k),
            vars@ == with_env_forced(old(vars)@, env_part(env@, names, i as int)),
        decreases n - i,
    {
        let name = env.name_at(i);
        let value = env.value_at(i);
        let free = match vars.get(name) {
            Some(v) => v.origin.rank() < Origin::CommandLine.rank(),
            None => true,
        };
        if free {
            vars.replace(
                name,
                Var {
                    flavor: Flavor::Simple,
                    origin: Origin::Environment,
                    raw: value.dup(),
                    exported: None,
                },
            );
        }
        proof {
            lemma_env_part(env@, names, i as int);
            assert(vars@.vars =~= with_env_forced(
                old(vars)@,
                env_part(env@, names, i + 1),
            ).vars);
        }
        i = i + 1;
    }
    proof {
        assert(names.take(i as int) =~= names);
        assert(env_part(env@, names, i as int) =~= env@);
    }
}

/// The depth at which this run is nested in others, as the environment says.
pub open spec fn level_in(env: Map<Seq<char>, Seq<char>>) -> Seq<char> {
    if env.dom().contains("MAKELEVEL"@) {
        env["MAKELEVEL"@]
    } else {
        "0"@
    }
}

/// The variables that the program itself sets: the built-in ones, and those that
/// tell of the run.
pub open spec fn own_vars(
    vars: VarTableView,
    args: ArgsView,
    level: Seq<char>,
    program: Seq<char>,
    directory: Seq<char>,
) -> VarTableView {
    let list = implicit::builtin_var_list();
    let a = if args.no_builtin_vars {
        vars
    } else {
        with_builtins(vars, list, list.len() as int)
    };
    a.set("MAKE"@, var::plain_var(Flavor::Simple, Origin::Default, program)).set(
        "MAKEFILE_LIST"@,
        var::plain_var(Flavor::Simple, Origin::Default, ""@),
    ).set("CURDIR"@, var::plain_var(Flavor::Simple, Origin::Default, directory)).set(
        "MAKELEVEL"@,
        var::plain_var(Flavor::Simple, Origin::Default, level),
    )
}

/// The variables that every run begins with: those that the program sets, those
/// of the environment and those of the command line.
pub open spec fn initial_vars(
    vars: VarTableView,
    args: ArgsView,
    env: Map<Seq<char>, Seq<char>>,
    program: Seq<char>,
    directory: Seq<char>,
) -> VarTableView {
    let own = own_vars(vars, args, level_in(env), program, directory);
    with_overrides(with_env(own, env), args.overrides, args.overrides.len() as int)
}

/// The makefile before the first line is read.
pub open spec fn initial(
    mf: MakefileView,
    args: ArgsView,
    env: Map<Seq<char>, Seq<char>>,
    program: Seq<char>,
    directory: Seq<char>,
) -> MakefileView {
    MakefileView {
        vars: initial_vars(mf.vars, args, env, program, directory),
        graph: GraphView {
            suffixes: mf.graph.suffixes + implicit::default_suffix_list(),
            pattern_rules: if args.no_builtin_rules {
                mf.graph.pattern_rules
            } else {
                mf.graph.pattern_rules + implicit::builtin_rule_list()
            },
            ..mf.graph
        },
        include_dirs: args.include_dirs,
        ..mf
    }
}

fn add_builtin_vars(vars: &mut VarTable)
    ensures
        final(vars)@ == with_builtins(
            old(vars)@,
            implicit::builtin_var_list(),
            implicit::builtin_var_list().len() as int,
        ),
{
    let list = builtin_vars();
    let ghost all = implicit::builtin_var_list();
    assert(implicit::pair_views(list@).len() == list@.len());
    let mut i: usize = 0;
    while i < list.len()
        invariant
            i <= list@.len(),
            all == implicit::pair_views(list@),
            all.len() == list@.len(),
            vars@ == with_builtins(old(vars)@, all, i as int),
        decreases list.len() - i,
    {
        let (name, value) = list[i];
        assert(all[i as int] == (name@, value@));
        vars.set(name, Var::new(Flavor::Recursive, Origin::Default, value));
        i = i + 1;
    }
}

fn add_overrides(vars: &mut VarTable, list: &[(String, String)])
    ensures
        final(vars)@ == with_overrides(
            old(vars)@,
            text::views(list@),
            list@.len() as int,
        ),
{
    let ghost all = text::views(list@);
    let mut i: usize = 0;
    while i < list.len()
        invariant
            i <= list@.len(),
            all == text::views(list@),
            vars@ == with_overrides(old(vars)@, all, i as int),
        decreases list.len() - i,
    {
        assert(all[i as int] == (list@[i as int].0@, list@[i as int].1@));
        vars.set(
            list[i].0.as_str(),
            Var::new(Flavor::Simple, Origin::CommandLine, list[i].1.as_str()),
        );
        i = i + 1;
    }
}

fn add_builtin_rules(graph: &mut BuildGraph)
    ensures
        final(graph)@ == (GraphView {
            pattern_rules: old(graph)@.pattern_rules + implicit::builtin_rule_list(),
            ..old(graph)@
        }),
{
    let ghost before = graph@.pattern_rules;
    let mut more = builtin_rules();
    let ghost added = text::views(more@);
    graph.pattern_rules.append(&mut more);
    proof {
        assert(text::views(graph.pattern_rules@) =~= before + added);
    }
}

fn add_suffixes(graph: &mut BuildGraph)
    ensures
        final(graph)@ == (GraphView {
            suffixes: old(graph)@.suffixes + implicit::default_suffix_list(),
            ..old(graph)@
        }),
{
    let ghost before = graph@.suffixes;
    let mut more = default_suffixes();
    let ghost added = text::views(more@);
    graph.suffixes.append(&mut more);
    proof {
        assert(text::views(graph.suffixes@) =~= before + added);
    }
}

fn set_up_vars(
    vars: &mut VarTable,
    args: &Args,
    env: &NameMap<String>,
    program: &str,
    directory: &str,
)
    ensures
        final(vars)@ == initial_vars(old(vars)@, args@, env@, program@, directory@),
{
    // Built-in variables
    if !args.no_builtin_vars {
        add_builtin_vars(vars);
    }
    vars.set("MAKE", Var::new(Flavor::Simple, Origin::Default, program));
    vars.set("MAKEFILE_LIST", Var::new(Flavor::Simple, Origin::Default, ""));
    vars.set("CURDIR", Var::new(Flavor::Simple, Origin::Default, directory));
    let level = match env.get("MAKELEVEL") {
        Some(v) => v.dup(),
        None => owned("0"),
    };
    vars.set("MAKELEVEL", Var::new(Flavor::Simple, Origin::Default, level.as_str()));
    // Environment variables (lower priority than file variables)
    add_env(vars, env);
    // Command-line variable overrides (highest priority)
    add_overrides(vars, args.overrides.as_slice());
}

/// Sets everything that is known before the first line of a makefile is read.
/// `program` is the path of the running program, `directory` the working
/// directory.
pub fn setup_initial_vars(
    mf: &mut Makefile,
    args: &Args,
    env: &NameMap<String>,
    program: &str,
    directory: &str,
)
    ensures
        final(mf)@ == initial(old(mf)@, args@, env@, program@, directory@),
{
    add_suffixes(&mut mf.graph);
    set_up_vars(&mut mf.vars, args, env, program, directory);
    // Built-in implicit rules
    if !args.no_builtin_rules {
        add_builtin_rules(&mut mf.graph);
    }
    mf.include_dirs = dup_all(args.include_dirs.as_slice());
}

// ── Reading files ───────────────────────────────────────────────────────────

/// The error for a file that could not be read.
pub open spec fn unreadable(path: Seq<char>, a: AnswerView) -> ErrorView {
    ErrorView::Fatal(path + ": "@ + parse::reason(a))
}

fn unreadable_file(path: &str, a: &Answer) -> (r: Stop)
    ensures
        r@ == StopView::Failed(unreadable(path@, a@)),
{
    let mut msg = chars_of(path);
    append_str(&mut msg, ": ");
    if let Answer::Failed(e) = a {
        append_str(&mut msg, e.as_str());
    } else {
        assert(msg@ + Seq::<char>::empty() =~= msg@);
    }
    Stop::Failed(Error::Fatal(string_of(msg.as_slice())))
}

/// The makefile after the file at `path` was read.
pub open spec fn with_file(
    mf: MakefileView,
    path: Seq<char>,
    log: Seq<AnswerView>,
    k: nat,
) -> Told<MakefileView> {
    match world::asked(log, k, QueryView::ReadFile(path)) {
        Err(s) => Err(s),
        Ok(a) => match a.0 {
            AnswerView::Text(src) => parse::source(
                src,
                path,
                parse::noted(mf, path),
                seq![],
                seq![path],
                log.len(),
                log,
                a.1,
            ),
            _ => world::failed(unreadable(path, a.0), a.1),
        },
    }
}

fn read_file(mf: &mut Makefile, path: &str, args: &Args, t: &mut Transcript) -> (r: Result<
    (),
    Stop,
>)
    ensures
        world::moves(
            r,
            *old(t),
            *final(t),
            final(mf)@,
            with_file(old(mf)@, path@, old(t).log(), old(t).at()),
        ),
{
    broadcast use text::group_views;

    note_file(mf, path);
    match t.ask(Query::ReadFile(owned(path)))? {
        Answer::Text(src) => {
            let mut conds: Vec<CondFrame> = Vec::new();
            let mut open: Vec<String> = Vec::new();
            open.push(owned(path));
            assert(text::views(open@) =~= seq![path@]);
            parse_source_pub(src.as_str(), path, mf, args, &mut conds, &open, t)
        },
        a => Err(unreadable_file(path, &a)),
    }
}

/// The makefile after the input was read.
pub open spec fn with_input(mf: MakefileView, log: Seq<AnswerView>, k: nat) -> Told<MakefileView> {
    match world::asked(log, k, QueryView::ReadInput) {
        Err(s) => Err(s),
        Ok(a) => match a.0 {
            AnswerView::Text(src) => parse::source(
                src,
                "<stdin>"@,
                mf,
                seq![],
                seq![],
                log.len(),
                log,
                a.1,
            ),
            _ => world::failed(ErrorView::Fatal(parse::reason(a.0)), a.1),
        },
    }
}

fn read_input(mf: &mut Makefile, args: &Args, t: &mut Transcript) -> (r: Result<(), Stop>)
    ensures
        world::moves(
            r,
            *old(t),
            *final(t),
            final(mf)@,
            with_input(old(mf)@, old(t).log(), old(t).at()),
        ),
{
    match t.ask(Query::ReadInput)? {
        Answer::Text(src) => parse_str(src.as_str(), "<stdin>", mf, args, t),
        Answer::Failed(e) => Err(Stop::Failed(Error::Fatal(e))),
        _ => {
            let none: Vec<char> = Vec::new();
            Err(Stop::Failed(Error::Fatal(string_of(none.as_slice()))))
        },
    }
}

/// Reads one makefile, from the start.
pub fn parse_file(
    path: &str,
    args: &Args,
    env: &NameMap<String>,
    program: &str,
    directory: &str,
    t: &mut Transcript,
) -> (r: Result<Makefile, Stop>)
    ensures
        world::tells(
            r,
            *old(t),
            *final(t),
            with_file(
                initial(empty_makefile(), args@, env@, program@, directory@),
                path@,
                old(t).log(),
                old(t).at(),
            ),
        ),
{
    let mut mf = Makefile::new();
    setup_initial_vars(&mut mf, args, env, program, directory);
    read_file(&mut mf, path, args, t)?;
    Ok(mf)
}

/// The makefile after the files from position `i` on were read; `-` stands for
/// the input.
pub open spec fn with_files(
    mf: MakefileView,
    paths: Seq<Seq<char>>,
    i: int,
    log: Seq<AnswerView>,
    k: nat,
) -> Told<MakefileView>
    decreases paths.len() - i,
{
    if i < 0 || i >= paths.len() {
        Ok((mf, k))
    } else {
        let read = if paths[i] == "-"@ {
            with_input(mf, log, k)
        } else {
            with_file(mf, paths[i], log, k)
        };
        match read {
            Err(s) => Err(s),
            Ok(p) => with_files(p.0, paths, i + 1, log, p.1),
        }
    }
}

/// The makefile in which the files that were read are listed.
pub open spec fn with_list(mf: MakefileView) -> MakefileView {
    MakefileView {
        vars: mf.vars.replace(
            "MAKEFILE_LIST"@,
            var::plain_var(
                Flavor::Simple,
                Origin::Default,
                text::join(mf.files_read, " "@),
            ),
        ),
        ..mf
    }
}

/// The makefile that some files make up.
pub open spec fn loaded(
    paths: Seq<Seq<char>>,
    start: MakefileView,
    log: Seq<AnswerView>,
    k: nat,
) -> Told<MakefileView> {
    match with_files(start, paths, 0, log, k) {
        Err(s) => Err(s),
        Ok(p) => Ok((with_list(p.0), p.1)),
    }
}

/// Parse one or more makefiles and merge them into a single `Makefile`.
pub fn load(
    paths: &[String],
    args: &Args,
    env: &NameMap<String>,
    program: &str,
    directory: &str,
    t: &mut Transcript,
) -> (r: Result<Makefile, Stop>)
    ensures
        world::tells(
            r,
            *old(t),
            *final(t),
            loaded(
                text::views(paths@),
                initial(empty_makefile(), args@, env@, program@, directory@),
                old(t).log(),
                old(t).at(),
            ),
        ),
{
    let mut mf = Makefile::new();
    setup_initial_vars(&mut mf, args, env, program, directory);
    let ghost start = mf@;
    let ghost all = text::views(paths@);
    let ghost k = t.at();
    let mut i: usize = 0;
    while i < paths.len()
        invariant
            i <= paths@.len(),
            all == text::views(paths@),
            start == initial(empty_makefile(), args@, env@, program@, directory@),
            t.log() == old(t).log(),
            k == old(t).at(),
            with_files(start, all, 0, t.log(), k) == with_files(
                mf@,
                all,
                i as int,
                t.log(),
                t.at(),
            ),
        decreases paths.len() - i,
    {
        assert(all[i as int] == paths@[i as int]@);
        if same_text(paths[i].as_str(), "-") {
            read_input(&mut mf, args, t)?;
        } else {
            read_file(&mut mf, paths[i].as_str(), args, t)?;
        }
        i = i + 1;
    }
    // Update MAKEFILE_LIST
    let list = join_strings(mf.files_read.as_slice(), " ");
    mf.vars.replace("MAKEFILE_LIST", Var::new(Flavor::Simple, Origin::Default, list.as_str()));
    Ok(mf)
}

// ── Makefile discovery ──────────────────────────────────────────────────────

/// A list of paths.
#[derive(Debug)]
pub struct Paths(pub Vec<String>);

impl View for Paths {
    type V = Seq<Seq<char>>;

    open spec fn view(&self) -> Seq<Seq<char>> {
        text::views(self.0@)
    }
}

/// Whether the makefiles that were asked for, from position `i` on, all exist;
/// the input always does.
pub open spec fn all_there(
    paths: Seq<Seq<char>>,
    i: int,
    log: Seq<AnswerView>,
    k: nat,
) -> Told<()>
    decreases paths.len() - i,
{
    if i < 0 || i >= paths.len() {
        Ok(((), k))
    } else if paths[i] == "-"@ {
        all_there(paths, i + 1, log, k)
    } else {
        match world::asked(log, k, QueryView::Exists(paths[i])) {
            Err(s) => Err(s),
            Ok(a) => if world::says_yes(a.0) {
                all_there(paths, i + 1, log, a.1)
            } else {
                world::failed(
                    ErrorView::Fatal(paths[i] + ": No such file or directory"@),
                    a.1,
                )
            },
        }
    }
}

/// The makefile that is there: the first of the three usual names.
pub open spec fn discovered(log: Seq<AnswerView>, k: nat) -> Told<Seq<Seq<char>>> {
    match world::asked(log, k, QueryView::Exists("GNUmakefile"@)) {
        Err(s) => Err(s),
        Ok(a) => if world::says_yes(a.0) {
            Ok((seq!["GNUmakefile"@], a.1))
        } else {
            match world::asked(log, a.1, QueryView::Exists("makefile"@)) {
                Err(s) => Err(s),
                Ok(b) => if world::says_yes(b.0) {
                    Ok((seq!["makefile"@], b.1))
                } else {
                    match world::asked(log, b.1, QueryView::Exists("Makefile"@)) {
                        Err(s) => Err(s),
                        Ok(c) => if world::says_yes(c.0) {
                            Ok((seq!["Makefile"@], c.1))
                        } else {
                            world::failed(
                                ErrorView::Fatal("No targets specified and no makefile found"@),
                                c.1,
                            )
                        },
                    }
                },
            }
        },
    }
}

/// The makefiles to read.
pub open spec fn makefiles_for(
    asked_for: Seq<Seq<char>>,
    log: Seq<AnswerView>,
    k: nat,
) -> Told<Seq<Seq<char>>> {
    if asked_for.len() > 0 {
        match all_there(asked_for, 0, log, k) {
            Err(s) => Err(s),
            Ok(p) => Ok((asked_for, p.1)),
        }
    } else {
        discovered(log, k)
    }
}

fn is_there(path: &str, t: &mut Transcript) -> (r: Result<bool, Stop>)
    ensures
        final(t).log() == old(t).log(),
        match world::asked(old(t).log(), old(t).at(), QueryView::Exists(path@)) {
            Ok(a) => r == Ok::<bool, Stop>(world::says_yes(a.0)) && final(t).at() == a.1,
            Err(s) => r is Err && r->Err_0@ == s.0 && final(t).at() == s.1,
        },
{
    let a = t.ask(Query::Exists(owned(path)))?;
    Ok(is_yes(&a))
}

fn check_all(paths: &[String], t: &mut Transcript) -> (r: Result<(), Stop>)
    ensures
        world::moves(
            r,
            *old(t),
            *final(t),
            (),
            all_there(text::views(paths@), 0, old(t).log(), old(t).at()),
        ),
{
    let ghost all = text::views(paths@);
    let ghost k = t.at();
    let mut i: usize = 0;
    while i < paths.len()
        invariant
            i <= paths@.len(),
            all == text::views(paths@),
            t.log() == old(t).log(),
            all_there(all, 0, old(t).log(), old(t).at()) == all_there(
                all,
                i as int,
                t.log(),
                t.at(),
            ),
        decreases paths.len() - i,
    {
        assert(all[i as int] == paths@[i as int]@);
        if !same_text(paths[i].as_str(), "-") {
            if !is_there(paths[i].as_str(), t)? {
                let mut msg = chars_of(paths[i].as_str());
                append_str(&mut msg, ": No such file or directory");
                return Err(Stop::Failed(Error::Fatal(string_of(msg.as_slice()))));
            }
        }
        i = i + 1;
    }
    Ok(())
}

fn only(path: &str) -> (r: Paths)
    ensures
        r@ == seq![path@],
{
    let mut v: Vec<String> = Vec::new();
    v.push(owned(path));
    assert(text::views(v@) =~= seq![path@]);
    Paths(v)
}

/// Find the makefile to use: explicit `-f` args, then auto-discovery.
pub fn find_makefiles(args: &Args, t: &mut Transcript) -> (r: Result<Paths, Stop>)
    ensures
        world::tells(
            r,
            *old(t),
            *final(t),
            makefiles_for(args@.makefiles, old(t).log(), old(t).at()),
        ),
{
    if args.makefiles.len() > 0 {
        assert(args@.makefiles.len() > 0);
        check_all(args.makefiles.as_slice(), t)?;
        return Ok(Paths(dup_all(args.makefiles.as_slice())));
    }
    assert(args@.makefiles.len() == 0);
    if is_there("GNUmakefile", t)? {
        return Ok(only("GNUmakefile"));
    }
    if is_there("makefile", t)? {
        return Ok(only("makefile"));
    }
    if is_there("Makefile", t)? {
        return Ok(only("Makefile"));
    }
    Err(Stop::Failed(error::fatal("No targets specified and no makefile found")))
}

// ── What holds of loading ───────────────────────────────────────────────────

/// An assignment on the command line, and of several to one name the last, gives the variable
/// its value; what is not assigned there stays as it was.
pub proof fn lemma_overrides(
    vars: VarTableView,
    list: Seq<(Seq<char>, Seq<char>)>,
    n: int,
    j: int,
    x: Seq<char>,
)
    requires
        0 <= n <= list.len(),
        -1 <= j < n,
        j >= 0 ==> list[j].0 == x,
        forall|i: int| j < i < n ==> (#[trigger] list[i]).0 != x,
    ensures
        with_overrides(vars, list, n).export_all == vars.export_all,
        j < 0 ==> with_overrides(vars, list, n).vars.dom().contains(x) == vars.vars.dom().contains(x)
            && with_overrides(vars, list, n).vars[x] == vars.vars[x],
        j >= 0 && (vars.vars.dom().contains(x) ==> !(vars.vars[x].origin is Automatic)) ==> {
            &&& with_overrides(vars, list, n).vars.dom().contains(x)
            &&& with_overrides(vars, list, n).vars[x] == (VarView {
                flavor: Flavor::Simple,
                origin: Origin::CommandLine,
                raw: list[j].1,
                exported: None,
            })
        },
    decreases n,
{
    if n > 0 {
        let before = with_overrides(vars, list, n - 1);
        let v = var::plain_var(Flavor::Simple, Origin::CommandLine, list[n - 1].1);
        var::lemma_set(before, list[n - 1].0, v);
        var::lemma_strengths();
        if j == n - 1 {
            if vars.vars.dom().contains(x) ==> !(vars.vars[x].origin is Automatic) {
                lemma_overrides_weak(vars, list, n - 1, x);
            }
            lemma_overrides_kept(vars, list, n - 1);
        } else {
            lemma_overrides(vars, list, n - 1, j, x);
            assert(list[n - 1].0 != x);
        }
    }
}

proof fn lemma_overrides_weak(vars: VarTableView, list: Seq<(Seq<char>, Seq<char>)>, n: int, x: Seq<char>)
    requires
        0 <= n <= list.len(),
        vars.vars.dom().contains(x) ==> !(vars.vars[x].origin is Automatic),
    ensures
        ({
            let u = with_overrides(vars, list, n).vars;
            u.dom().contains(x) ==> !(u[x].origin is Automatic)
        }),
    decreases n,
{
    if n > 0 {
        lemma_overrides_weak(vars, list, n - 1, x);
        var::lemma_strengths();
    }
}

proof fn lemma_overrides_kept(vars: VarTableView, list: Seq<(Seq<char>, Seq<char>)>, n: int)
    ensures
        with_overrides(vars, list, n).export_all == vars.export_all,
    decreases n,
{
    if n > 0 {
        lemma_overrides_kept(vars, list, n - 1);
    }
}

/// A built-in variable has its built-in value where nothing else has set it; what is not built
/// in stays as it was.
pub proof fn lemma_builtins(
    vars: VarTableView,
    list: Seq<(Seq<char>, Seq<char>)>,
    n: int,
    j: int,
    x: Seq<char>,
)
    requires
        0 <= n <= list.len(),
        -1 <= j < n,
        j >= 0 ==> list[j].0 == x,
        forall|i: int| j < i < n ==> (#[trigger] list[i]).0 != x,
    ensures
        with_builtins(vars, list, n).export_all == vars.export_all,
        j < 0 ==> with_builtins(vars, list, n).vars.dom().contains(x) == vars.vars.dom().contains(x)
            && with_builtins(vars, list, n).vars[x] == vars.vars[x],
        j >= 0 && (vars.vars.dom().contains(x) ==> vars.vars[x].origin is Default) ==> {
            &&& with_builtins(vars, list, n).vars.dom().contains(x)
            &&& with_builtins(vars, list, n).vars[x] == (VarView {
                flavor: Flavor::Recursive,
                origin: Origin::Default,
                raw: list[j].1,
                exported: None,
            })
        },
    decreases n,
{
    if n > 0 {
        let before = with_builtins(vars, list, n - 1);
        let v = var::plain_var(Flavor::Recursive, Origin::Default, list[n - 1].1);
        var::lemma_set(before, list[n - 1].0, v);
        var::lemma_strengths();
        if j == n - 1 {
            if vars.vars.dom().contains(x) ==> vars.vars[x].origin is Default {
                lemma_builtins_weak(vars, list, n - 1, x);
            }
            lemma_builtins_kept(vars, list, n - 1);
        } else {
            lemma_builtins(vars, list, n - 1, j, x);
            assert(list[n - 1].0 != x);
        }
    }
}

proof fn lemma_builtins_weak(vars: VarTableView, list: Seq<(Seq<char>, Seq<char>)>, n: int, x: Seq<char>)
    requires
        0 <= n <= list.len(),
        vars.vars.dom().contains(x) ==> vars.vars[x].origin is Default,
    ensures
        ({
            let u = with_builtins(vars, list, n).vars;
            u.dom().contains(x) ==> u[x].origin is Default
        }),
    decreases n,
{
    if n > 0 {
        lemma_builtins_weak(vars, list, n - 1, x);
        var::lemma_strengths();
    }
}

proof fn lemma_builtins_kept(vars: VarTableView, list: Seq<(Seq<char>, Seq<char>)>, n: int)
    ensures
        with_builtins(vars, list, n).export_all == vars.export_all,
    decreases n,
{
    if n > 0 {
        lemma_builtins_kept(vars, list, n - 1);
    }
}

/// The environment sets every variable that is in it, but for those that the makefile, the
/// command line or `override` has set, and no other.
pub proof fn lemma_env(vars: VarTableView, env: Map<Seq<char>, Seq<char>>, x: Seq<char>)
    ensures
        ({
            let u = with_env(vars, env);
            let have = vars.vars.dom().contains(x);
            let weak = vars.vars[x].origin is Default || vars.vars[x].origin is Environment;
            &&& u.export_all == vars.export_all
            &&& u.vars.dom().contains(x) <==> have || env.dom().contains(x)
            &&& env.dom().contains(x) && (have ==> weak) ==> u.vars[x] == (VarView {
                flavor: Flavor::Simple,
                origin: Origin::Environment,
                raw: env[x],
                exported: None,
            })
            &&& have && !(env.dom().contains(x) && weak) ==> u.vars[x] == vars.vars[x]
        }),
{
    var::lemma_strengths();
}

/// Under `-e` the environment sets every variable that is in it, but for those that the
/// command line has set, and no other.
pub proof fn lemma_env_forced(vars: VarTableView, env: Map<Seq<char>, Seq<char>>, x: Seq<char>)
    ensures
        ({
            let u = with_env_forced(vars, env);
            let have = vars.vars.dom().contains(x);
            let weak = !(vars.vars[x].origin is CommandLine || vars.vars[x].origin is Automatic);
            &&& u.export_all == vars.export_all
            &&& u.vars.dom().contains(x) <==> have || env.dom().contains(x)
            &&& env.dom().contains(x) && (have ==> weak) ==> u.vars[x] == (VarView {
                flavor: Flavor::Simple,
                origin: Origin::Environment,
                raw: env[x],
                exported: None,
            })
            &&& have && !(env.dom().contains(x) && weak) ==> u.vars[x] == vars.vars[x]
        }),
{
    var::lemma_strengths();
}

proof fn lemma_own_names()
    ensures
        "MAKE"@ != "MAKEFILE_LIST"@,
        "MAKE"@ != "CURDIR"@,
        "MAKE"@ != "MAKELEVEL"@,
        "MAKEFILE_LIST"@ != "CURDIR"@,
        "MAKEFILE_LIST"@ != "MAKELEVEL"@,
        "CURDIR"@ != "MAKELEVEL"@,
{
    reveal_strlit("MAKE");
    reveal_strlit("MAKEFILE_LIST");
    reveal_strlit("CURDIR");
    reveal_strlit("MAKELEVEL");
    assert("MAKE"@.len() == 4 && "MAKEFILE_LIST"@.len() == 13 && "CURDIR"@.len() == 6
        && "MAKELEVEL"@.len() == 9);
}

/// Before the environment is looked at, `MAKE` is the program, `CURDIR` the directory and
/// `MAKELEVEL` how deep the run is nested, also where there are no built-in variables.
pub proof fn lemma_own_vars(
    args: ArgsView,
    level: Seq<char>,
    program: Seq<char>,
    directory: Seq<char>,
)
    ensures
        ({
            let u = own_vars(var::no_vars(), args, level, program, directory).vars;
            &&& u.dom().contains("MAKE"@) && u["MAKE"@].raw == program
            &&& u.dom().contains("CURDIR"@) && u["CURDIR"@].raw == directory
            &&& u.dom().contains("MAKELEVEL"@) && u["MAKELEVEL"@].raw == level
            &&& u.dom().contains("MAKEFILE_LIST"@) && u["MAKEFILE_LIST"@].raw.len() == 0
            &&& forall|x: Seq<char>| #[trigger] u.dom().contains(x) ==> u[x].origin is Default
        }),
{
    lemma_own_names();
    reveal_strlit("");
    let list = implicit::builtin_var_list();
    let n = list.len() as int;
    let a = if args.no_builtin_vars {
        var::no_vars()
    } else {
        with_builtins(var::no_vars(), list, n)
    };
    assert forall|x: Seq<char>| #[trigger] a.vars.dom().contains(x) implies a.vars[x].origin
        is Default by {
        lemma_builtins_weak(var::no_vars(), list, n, x);
    }
    assert(a.vars.dom().contains("MAKE"@) ==> a.vars["MAKE"@].origin is Default);
    assert(a.vars.dom().contains("CURDIR"@) ==> a.vars["CURDIR"@].origin is Default);
    assert(a.vars.dom().contains("MAKELEVEL"@) ==> a.vars["MAKELEVEL"@].origin is Default);
    assert(a.vars.dom().contains("MAKEFILE_LIST"@) ==> a.vars["MAKEFILE_LIST"@].origin is Default);
}

/// What the command line assigns is what a variable is worth before the first line is read,
/// whatever the environment says; what only the environment has, it is worth there.
pub proof fn lemma_initial_vars(
    args: ArgsView,
    env: Map<Seq<char>, Seq<char>>,
    program: Seq<char>,
    directory: Seq<char>,
    j: int,
    x: Seq<char>,
)
    requires
        -1 <= j < args.overrides.len(),
        j >= 0 ==> args.overrides[j].0 == x,
        forall|i: int| j < i < args.overrides.len() ==> (#[trigger] args.overrides[i]).0 != x,
    ensures
        ({
            let u = initial_vars(var::no_vars(), args, env, program, directory).vars;
            &&& j >= 0 ==> u.dom().contains(x) && u[x].raw == args.overrides[j].1 && u[x].origin
                is CommandLine
            &&& j < 0 && env.dom().contains(x) ==> u.dom().contains(x) && u[x].raw == env[x]
                && u[x].origin is Environment
            &&& j < 0 && !env.dom().contains(x) && u.dom().contains(x) ==> u[x].origin is Default
        }),
{
    let own = own_vars(var::no_vars(), args, level_in(env), program, directory);
    lemma_own_vars(args, level_in(env), program, directory);
    assert(own.vars.dom().contains(x) ==> own.vars[x].origin is Default);
    lemma_env(own, env, x);
    lemma_overrides(with_env(own, env), args.overrides, args.overrides.len() as int, j, x);
}

/// Before the first line is read there are the usual suffixes, and the built-in rules unless
/// `-r` is given; `-I` says where makefiles are looked for.
pub proof fn lemma_initial(
    args: ArgsView,
    env: Map<Seq<char>, Seq<char>>,
    program: Seq<char>,
    directory: Seq<char>,
)
    ensures
        ({
            let m = initial(empty_makefile(), args, env, program, directory);
            &&& m.include_dirs == args.include_dirs
            &&& m.graph.suffixes == implicit::default_suffix_list()
            &&& args.no_builtin_rules ==> m.graph.pattern_rules.len() == 0
            &&& !args.no_builtin_rules ==> m.graph.pattern_rules == implicit::builtin_rule_list()
            &&& m.first_target is None
            &&& m.default_goal is None
            &&& m.files_read.len() == 0
        }),
{
    let m = initial(empty_makefile(), args, env, program, directory);
    assert(m.graph.suffixes =~= implicit::default_suffix_list());
    assert(!args.no_builtin_rules ==> m.graph.pattern_rules =~= implicit::builtin_rule_list());
}

/// Every makefile is read, in the order in which they are named, each on top of what those
/// before it have made: reading goes on behind a file with what the file has made.
pub proof fn lemma_files_in_turn(
    mf: MakefileView,
    paths: Seq<Seq<char>>,
    i: int,
    src: Seq<char>,
    log: Seq<AnswerView>,
    k: nat,
)
    requires
        0 <= i <= paths.len(),
        i < paths.len() ==> k < log.len() && log[k as int] == AnswerView::Text(src),
    ensures
        i == paths.len() ==> with_files(mf, paths, i, log, k) == Ok::<
            (MakefileView, nat),
            (StopView, nat),
        >((mf, k)),
        i < paths.len() && paths[i] != "-"@ ==> match parse::source(
            src,
            paths[i],
            parse::noted(mf, paths[i]),
            seq![],
            seq![paths[i]],
            log.len(),
            log,
            k + 1,
        ) {
            Ok(p) => with_files(mf, paths, i, log, k) == with_files(p.0, paths, i + 1, log, p.1),
            Err(s) => with_files(mf, paths, i, log, k) == Err::<
                (MakefileView, nat),
                (StopView, nat),
            >(s),
        },
        i < paths.len() && paths[i] == "-"@ ==> match parse::source(
            src,
            "<stdin>"@,
            mf,
            seq![],
            seq![],
            log.len(),
            log,
            k + 1,
        ) {
            Ok(p) => with_files(mf, paths, i, log, k) == with_files(p.0, paths, i + 1, log, p.1),
            Err(s) => with_files(mf, paths, i, log, k) == Err::<
                (MakefileView, nat),
                (StopView, nat),
            >(s),
        },
{
}

/// A file that cannot be read ends the run with its name and the reason, and no later one is
/// asked for.
pub proof fn lemma_unreadable(
    mf: MakefileView,
    paths: Seq<Seq<char>>,
    i: int,
    why: Seq<char>,
    log: Seq<AnswerView>,
    k: nat,
)
    requires
        0 <= i < paths.len(),
        paths[i] != "-"@,
    ensures
        k >= log.len() ==> with_files(mf, paths, i, log, k) == Err::<
            (MakefileView, nat),
            (StopView, nat),
        >((StopView::Ask(QueryView::ReadFile(paths[i])), k)),
        k < log.len() && log[k as int] == AnswerView::Failed(why) ==> with_files(
            mf,
            paths,
            i,
            log,
            k,
        ) == Err::<(MakefileView, nat), (StopView, nat)>(
            (StopView::Failed(ErrorView::Fatal(paths[i] + ": "@ + why)), k + 1),
        ),
{
}

/// Without `-f` the makefile is the first of `GNUmakefile`, `makefile` and `Makefile` that
/// exists; where none does, there is an error.
pub proof fn lemma_discovered(log: Seq<AnswerView>, k: nat)
    ensures
        ({
            let r = makefiles_for(seq![], log, k);
            let no = |i: nat| i < log.len() && log[i as int] != AnswerView::Flag(true);
            let yes = |i: nat| i < log.len() && log[i as int] == AnswerView::Flag(true);
            &&& k >= log.len() ==> r == Err::<(Seq<Seq<char>>, nat), (StopView, nat)>(
                (StopView::Ask(QueryView::Exists("GNUmakefile"@)), k),
            )
            &&& no(k) && k + 1 >= log.len() ==> r == Err::<(Seq<Seq<char>>, nat), (StopView, nat)>(
                (StopView::Ask(QueryView::Exists("makefile"@)), k + 1),
            )
            &&& no(k) && no(k + 1) && k + 2 >= log.len() ==> r == Err::<
                (Seq<Seq<char>>, nat),
                (StopView, nat),
            >((StopView::Ask(QueryView::Exists("Makefile"@)), k + 2))
            &&& yes(k) ==> r == Ok::<(Seq<Seq<char>>, nat), (StopView, nat)>(
                (seq!["GNUmakefile"@], k + 1),
            )
            &&& no(k) && yes(k + 1) ==> r == Ok::<(Seq<Seq<char>>, nat), (StopView, nat)>(
                (seq!["makefile"@], k + 2),
            )
            &&& no(k) && no(k + 1) && yes(k + 2) ==> r == Ok::<
                (Seq<Seq<char>>, nat),
                (StopView, nat),
            >((seq!["Makefile"@], k + 3))
            &&& no(k) && no(k + 1) && no(k + 2) ==> r == Err::<
                (Seq<Seq<char>>, nat),
                (StopView, nat),
            >(
                (
                    StopView::Failed(
                        ErrorView::Fatal("No targets specified and no makefile found"@),
                    ),
                    k + 3,
                ),
            )
        }),
{
}

/// With `-f` exactly the files that are named there are the makefiles, and each of them has
/// to exist, but for the input.
pub proof fn lemma_asked_for(
    paths: Seq<Seq<char>>,
    i: int,
    n: int,
    log: Seq<AnswerView>,
    k: nat,
)
    requires
        0 <= i <= n <= paths.len(),
        forall|j: int| i <= j < n ==> #[trigger] paths[j] != "-"@,
        k + (n - i) <= log.len(),
        forall|j: int| k <= j < k + (n - i) ==> #[trigger] log[j] == AnswerView::Flag(true),
        n < paths.len() ==> paths[n] != "-"@,
    ensures
        n == paths.len() ==> all_there(paths, i, log, k) == Ok::<((), nat), (StopView, nat)>(
            ((), (k + (n - i)) as nat),
        ),
        n == paths.len() && i == 0 && n > 0 ==> makefiles_for(paths, log, k) == Ok::<
            (Seq<Seq<char>>, nat),
            (StopView, nat),
        >((paths, (k + n) as nat)),
        n < paths.len() && k + (n - i) == log.len() ==> all_there(paths, i, log, k) == Err::<
            ((), nat),
            (StopView, nat),
        >((StopView::Ask(QueryView::Exists(paths[n])), (k + (n - i)) as nat)),
        n < paths.len() && k + (n - i) < log.len() && log[k + (n - i)] != AnswerView::Flag(true)
            ==> all_there(paths, i, log, k) == Err::<((), nat), (StopView, nat)>(
            (
                StopView::Failed(ErrorView::Fatal(paths[n] + ": No such file or directory"@)),
                (k + (n - i) + 1) as nat,
            ),
        ),
    decreases n - i,
{
    if i < n {
        assert(paths[i] != "-"@);
        assert(log[k as int] == AnswerView::Flag(true));
        lemma_asked_for(paths, i + 1, n, log, k + 1);
    }
}

/// The input is taken to be there without a question, wherever it stands in the list.
pub proof fn lemma_input_there(
    paths: Seq<Seq<char>>,
    i: int,
    log: Seq<AnswerView>,
    k: nat,
)
    requires
        0 <= i < paths.len(),
        paths[i] == "-"@,
    ensures
        all_there(paths, i, log, k) == all_there(paths, i + 1, log, k),
{
}

/// After loading, `MAKEFILE_LIST` names what was read, unless the command line has set it,
/// and nothing else has changed.
pub proof fn lemma_listed_files(mf: MakefileView, x: Seq<char>)
    ensures
        ({
            let m = with_list(mf);
            let kept = mf.vars.vars.dom().contains("MAKEFILE_LIST"@)
                && mf.vars.vars["MAKEFILE_LIST"@].origin is CommandLine;
            &&& kept ==> m == mf
            &&& !kept ==> m.vars.vars.dom().contains("MAKEFILE_LIST"@)
                && m.vars.vars["MAKEFILE_LIST"@].raw == text::join(mf.files_read, seq![' '])
            &&& x != "MAKEFILE_LIST"@ ==> m.vars.vars[x] == mf.vars.vars[x]
            &&& m.graph == mf.graph
            &&& m.files_read == mf.files_read
            &&& m.first_target == mf.first_target
            &&& m.default_goal == mf.default_goal
        }),
{
    reveal_strlit(" ");
    assert(" "@ =~= seq![' ']);
}

} // verus!
