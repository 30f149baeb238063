//! A run of the program, from its arguments to its exit status.

use vstd::prelude::*;
use crate::args;
use crate::args::{parse, set_ignore_errors, set_silent, Args, ArgsView};
use crate::error;
use crate::error::{prog, Error, ErrorView, Level};
use crate::makefile;
use crate::makefile::database;
use crate::makefile::exec;
use crate::makefile::exec::{ExecView, Executor, Outcome};
use crate::makefile::graph::GraphView;
use crate::makefile::load;
use crate::makefile::load::{find_makefiles, force_env};
use crate::makefile::var;
use crate::makefile::var::{Flavor, Origin, Var};
use crate::makefile::{Makefile, MakefileView};
use crate::names::NameMap;
use crate::number;
use crate::number::parse_usize;
use crate::text;
use crate::text::{append_str, chars_of, dup_all, join_strings, string_of, Dup};
use crate::world;
use crate::world::{Answer, AnswerView, Query, QueryView, Stop, Told, Transcript};

verus! {

/// How deep this run is nested in others, as the environment says.
pub open spec fn level_of(env: Map<Seq<char>, Seq<char>>) -> nat {
    if env.dom().contains("MAKELEVEL"@) {
        match number::parsed(env["MAKELEVEL"@]) {
            Some(n) => n,
            None => 0,
        }
    } else {
        0
    }
}

/// Reads from the environment how deep this run is nested in others.
pub fn makelevel(env: &NameMap<String>) -> (r: usize)
    ensures
        r == level_of(env@),
{
    match env.get("MAKELEVEL") {
        Some(s) => {
            match parse_usize(chars_of(s.as_str()).as_slice()) {
                Some(n) => n,
                None => 0,
            }
        },
        None => 0,
    }
}

/// The arguments with what `.IGNORE` and `.SILENT` call for.
pub open spec fn flagged(a: ArgsView, mf: MakefileView) -> ArgsView {
    ArgsView {
        ignore_errors: a.ignore_errors || mf.global_ignore,
        silent: a.silent || mf.global_silent,
        ..a
    }
}

/// Applies the flags that `.IGNORE` and `.SILENT` set for the whole run.
pub fn apply_global_flags(args: &Args, mf: &Makefile) -> (r: Args)
    ensures
        r@ == flagged(args@, mf@),
{
    let mut a = args.dup();
    if mf.global_ignore {
        set_ignore_errors(&mut a, true);
    }
    if mf.global_silent {
        set_silent(&mut a, true);
    }
    a
}

/// The goals: those of the command line, or else the default goal.
pub open spec fn goals_of(
    a: ArgsView,
    mf: MakefileView,
    log: Seq<AnswerView>,
    k: nat,
) -> Told<Seq<Seq<char>>> {
    if a.targets.len() > 0 {
        Ok((a.targets, k))
    } else {
        match makefile::goal(mf, log, k) {
            Err(s) => Err(s),
            Ok(p) => match p.0 {
                Some(g) => Ok((seq![g], p.1)),
                None => world::failed(ErrorView::Fatal("No targets"@), p.1),
            },
        }
    }
}

/// Selects the goals.
pub fn select_goals(args: &Args, mf: &Makefile, t: &mut Transcript) -> (r: Result<
    Vec<String>,
    Stop,
>)
    ensures
        final(t).log() == old(t).log(),
        match goals_of(args@, mf@, old(t).log(), old(t).at()) {
            Ok(p) => r is Ok && text::views(r->Ok_0@) == p.0 && final(t).at() == p.1,
            Err(s) => r is Err && r->Err_0@ == s.0 && final(t).at() == s.1,
        },
{
    assert(args@.targets.len() == args.targets@.len());
    if args.targets.len() > 0 {
        return Ok(dup_all(args.targets.as_slice()));
    }
    match mf.default_goal(t)? {
        Some(g) => {
            let mut v: Vec<String> = Vec::new();
            let ghost name = g@;
            v.push(g);
            assert(text::views(v@) =~= seq![name]);
            Ok(v)
        },
        None => Err(Stop::Failed(error::fatal("No targets"))),
    }
}

/// The makefile over whose variables those of the environment stand (`-e`).
pub open spec fn overridden(
    mf: MakefileView,
    a: ArgsView,
    env: Map<Seq<char>, Seq<char>>,
) -> MakefileView {
    if a.env_override {
        MakefileView { vars: load::with_env_forced(mf.vars, env), ..mf }
    } else {
        mf
    }
}

/// The makefile in which the goals are listed.
pub open spec fn with_goals(mf: MakefileView, goals: Seq<Seq<char>>) -> MakefileView {
    MakefileView {
        vars: mf.vars.replace(
            "MAKECMDGOALS"@,
            var::plain_var(Flavor::Simple, Origin::Default, text::join(goals, " "@)),
        ),
        ..mf
    }
}

/// The exit status of a run that came to its end: 2 where targets failed, 1
/// where one was found out of date under `-q`, and otherwise 0.
pub open spec fn status_of(failures: nat, outdated: bool) -> i32 {
    if failures > 0 {
        2
    } else if outdated {
        1
    } else {
        0
    }
}

/// The exit status of a run that came to its end.
pub fn exit_status(outcome: Outcome) -> (r: i32)
    ensures
        r == status_of(outcome.failures as nat, outcome.outdated),
{
    if outcome.failures > 0 {
        2
    } else if outcome.outdated {
        1
    } else {
        0
    }
}

/// The exit status of a run that an error ended: that of the error, and at
/// least 2.
pub fn failure_status(e: &Error) -> (r: i32)
    ensures
        r == (if error::error_status(e@) > 2 {
            error::error_status(e@)
        } else {
            2
        }),
{
    let code = e.exit_code();
    if code > 2 {
        code
    } else {
        2
    }
}

// ── Directories ─────────────────────────────────────────────────────────────

/// Going to the directory that `-C` names.
pub open spec fn moved(a: ArgsView, log: Seq<AnswerView>, k: nat) -> Told<()> {
    match a.directory {
        None => Ok(((), k)),
        Some(dir) => match world::asked(log, k, QueryView::ChangeDir(dir)) {
            Err(s) => Err(s),
            Ok(p) => match p.0 {
                AnswerView::Failed(why) => world::failed(
                    ErrorView::Fatal(dir + ": "@ + why),
                    p.1,
                ),
                _ => Ok(((), p.1)),
            },
        },
    }
}

/// The message on entering or leaving a directory.
pub open spec fn directory_line(depth: nat, verb: Seq<char>, dir: Seq<char>) -> Seq<char> {
    error::prog_text(depth) + ": "@ + verb + " directory '"@ + dir + "'"@
}

/// Whether entering and leaving the directory is told (`-w`, `-C`).
pub open spec fn tells_directory(a: ArgsView) -> bool {
    a.print_directory || a.directory is Some
}

/// Telling that the directory is entered or left.
pub open spec fn directory_told(
    a: ArgsView,
    depth: nat,
    verb: Seq<char>,
    log: Seq<AnswerView>,
    k: nat,
) -> Told<()> {
    if tells_directory(a) {
        match world::asked(log, k, QueryView::WorkDir) {
            Err(s) => Err(s),
            Ok(p) => match world::asked(
                log,
                p.1,
                QueryView::Warn(directory_line(depth, verb, world::text_in(p.0))),
            ) {
                Err(s) => Err(s),
                Ok(q) => Ok(((), q.1)),
            },
        }
    } else {
        Ok(((), k))
    }
}

fn change_directory(args: &Args, t: &mut Transcript) -> (r: Result<(), Stop>)
    ensures
        world::moves(r, *old(t), *final(t), (), moved(args@, old(t).log(), old(t).at())),
{
    if let Some(dir) = &args.directory {
        if let Answer::Failed(why) = t.ask(Query::ChangeDir(dir.dup()))? {
            let mut msg = chars_of(dir.as_str());
            append_str(&mut msg, ": ");
            append_str(&mut msg, why.as_str());
            return Err(Stop::Failed(Error::Fatal(string_of(msg.as_slice()))));
        }
    }
    Ok(())
}

fn work_dir(t: &mut Transcript) -> (r: Result<String, Stop>)
    ensures
        final(t).log() == old(t).log(),
        match world::asked(old(t).log(), old(t).at(), QueryView::WorkDir) {
            Ok(p) => r is Ok && r->Ok_0@ == world::text_in(p.0) && final(t).at() == p.1,
            Err(s) => r is Err && r->Err_0@ == s.0 && final(t).at() == s.1,
        },
{
    match t.ask(Query::WorkDir)? {
        Answer::Text(s) => Ok(s),
        _ => {
            let none: Vec<char> = Vec::new();
            Ok(string_of(none.as_slice()))
        },
    }
}

fn tell_directory(args: &Args, level: &Level, verb: &str, t: &mut Transcript) -> (r: Result<
    (),
    Stop,
>)
    ensures
        world::moves(
            r,
            *old(t),
            *final(t),
            (),
            directory_told(args@, level.depth as nat, verb@, old(t).log(), old(t).at()),
        ),
{
    if args.print_directory || args.directory.is_some() {
        let dir = work_dir(t)?;
        let name = prog(level);
        let mut line = chars_of(name.as_str());
        append_str(&mut line, ": ");
        append_str(&mut line, verb);
        append_str(&mut line, " directory '");
        append_str(&mut line, dir.as_str());
        append_str(&mut line, "'");
        let _ = t.ask(Query::Warn(string_of(line.as_slice())))?;
    }
    Ok(())
}

// ── The run ─────────────────────────────────────────────────────────────────

/// Showing the lines from position `i` on.
pub open spec fn lines_shown(
    lines: Seq<Seq<char>>,
    i: int,
    log: Seq<AnswerView>,
    k: nat,
) -> Told<()>
    decreases lines.len() - i,
{
    if i < 0 || i >= lines.len() {
        Ok(((), k))
    } else {
        match world::asked(log, k, QueryView::Print(lines[i])) {
            Err(s) => Err(s),
            Ok(p) => lines_shown(lines, i + 1, log, p.1),
        }
    }
}

fn show_lines(lines: &[String], t: &mut Transcript) -> (r: Result<(), Stop>)
    ensures
        world::moves(
            r,
            *old(t),
            *final(t),
            (),
            lines_shown(text::views(lines@), 0, old(t).log(), old(t).at()),
        ),
{
    let ghost all = text::views(lines@);
    let mut i: usize = 0;
    while i < lines.len()
        invariant
            i <= lines@.len(),
            all == text::views(lines@),
            t.log() == old(t).log(),
            lines_shown(all, 0, old(t).log(), old(t).at()) == lines_shown(
                all,
                i as int,
                t.log(),
                t.at(),
            ),
        decreases lines.len() - i,
    {
        assert(all[i as int] == lines@[i as int]@);
        let _ = t.ask(Query::Print(lines[i].dup()))?;
        i = i + 1;
    }
    Ok(())
}

/// What builds the targets of a makefile.
pub open spec fn executor_of(
    mf: MakefileView,
    a: ArgsView,
    depth: nat,
    program: Seq<char>,
) -> ExecView {
    ExecView { args: flagged(a, mf), vars: mf.vars, makelevel: depth, program, in_progress: seq![] }
}

/// Building goals, with the directory told before and after.
pub open spec fn built_in_directory(
    a: ArgsView,
    depth: nat,
    x: ExecView,
    g: GraphView,
    goals: Seq<Seq<char>>,
    log: Seq<AnswerView>,
    k: nat,
) -> Told<i32> {
    match directory_told(a, depth, "Entering"@, log, k) {
        Err(s) => Err(s),
        Ok(p) => match exec::goals_built(x, g, goals, log, p.1) {
            Err(s) => Err(s),
            Ok(q) => match directory_told(a, depth, "Leaving"@, log, q.1) {
                Err(s) => Err(s),
                Ok(w) => Ok((status_of(q.0.0.0, q.0.0.1), w.1)),
            },
        },
    }
}

/// Building the goals of a makefile.
pub open spec fn goals_made(
    mf: MakefileView,
    a: ArgsView,
    depth: nat,
    program: Seq<char>,
    goals: Seq<Seq<char>>,
    log: Seq<AnswerView>,
    k: nat,
) -> Told<i32> {
    let m = with_goals(mf, goals);
    built_in_directory(a, depth, executor_of(m, a, depth, program), m.graph, goals, log, k)
}

/// What is done with a makefile that was read: its database is shown, or its
/// goals are built.
pub open spec fn carried_out(
    mf: MakefileView,
    a: ArgsView,
    depth: nat,
    program: Seq<char>,
    log: Seq<AnswerView>,
    k: nat,
) -> Told<i32> {
    if a.print_db {
        match lines_shown(database::database(mf), 0, log, k) {
            Err(s) => Err(s),
            Ok(p) => Ok((0i32, p.1)),
        }
    } else {
        match goals_of(a, mf, log, k) {
            Err(s) => Err(s),
            Ok(p) => goals_made(mf, a, depth, program, p.0, log, p.1),
        }
    }
}

/// A run with the arguments read.
pub open spec fn run_with(
    a: ArgsView,
    env: Map<Seq<char>, Seq<char>>,
    program: Seq<char>,
    log: Seq<AnswerView>,
    k: nat,
) -> Told<i32> {
    match moved(a, log, k) {
        Err(s) => Err(s),
        Ok(p) => match load::makefiles_for(a.makefiles, log, p.1) {
            Err(s) => Err(s),
            Ok(q) => match world::asked(log, q.1, QueryView::WorkDir) {
                Err(s) => Err(s),
                Ok(d) => {
                    let start = load::initial(
                        makefile::empty_makefile(),
                        a,
                        env,
                        program,
                        world::text_in(d.0),
                    );
                    match load::loaded(q.0, start, log, d.1) {
                        Err(s) => Err(s),
                        Ok(m) => carried_out(
                            overridden(m.0, a, env),
                            a,
                            level_of(env),
                            program,
                            log,
                            m.1,
                        ),
                    }
                },
            },
        },
    }
}

/// A run: the arguments are read, the makefiles found and read, and the goals
/// built. The result is the exit status.
pub open spec fn run_of(
    argv: Seq<Seq<char>>,
    nproc: nat,
    env: Map<Seq<char>, Seq<char>>,
    program: Seq<char>,
    log: Seq<AnswerView>,
    k: nat,
) -> Told<i32> {
    match args::parsed_args(argv, nproc) {
        Err(e) => world::failed(e, k),
        Ok(a) => run_with(a, env, program, log, k),
    }
}

fn make_goals(
    mf: Makefile,
    args: &Args,
    level: &Level,
    program: &str,
    goals: &[String],
    t: &mut Transcript,
) -> (r: Result<i32, Stop>)
    requires
        level.depth < usize::MAX,
    ensures
        final(t).log() == old(t).log(),
        match goals_made(
            mf@,
            args@,
            level.depth as nat,
            program@,
            text::views(goals@),
            old(t).log(),
            old(t).at(),
        ) {
            Ok(p) => r == Ok::<i32, Stop>(p.0) && final(t).at() == p.1,
            Err(s) => r is Err && r->Err_0@ == s.0 && final(t).at() == s.1,
        },
{
    let mut mf = mf;
    list_goals(&mut mf, goals);
    tell_directory(args, level, "Entering", t)?;
    let outcome = build_goals(&mf, args, level, program, goals, t)?;
    tell_directory(args, level, "Leaving", t)?;
    Ok(exit_status(outcome))
}

fn list_goals(mf: &mut Makefile, goals: &[String])
    ensures
        final(mf)@ == with_goals(old(mf)@, text::views(goals@)),
{
    let list = join_strings(goals, " ");
    mf.vars.replace(
        "MAKECMDGOALS",
        Var::new(Flavor::Simple, Origin::Default, list.as_str()),
    );
}

fn build_goals(
    mf: &Makefile,
    args: &Args,
    level: &Level,
    program: &str,
    goals: &[String],
    t: &mut Transcript,
) -> (r: Result<Outcome, Stop>)
    requires
        level.depth < usize::MAX,
    ensures
        final(t).log() == old(t).log(),
        match exec::goals_built(
            executor_of(mf@, args@, level.depth as nat, program@),
            mf@.graph,
            text::views(goals@),
            old(t).log(),
            old(t).at(),
        ) {
            Ok(p) => r is Ok && r->Ok_0.failures == p.0.0.0 && r->Ok_0.outdated == p.0.0.1
                && final(t).at() == p.1,
            Err(s) => r is Err && r->Err_0@ == s.0 && final(t).at() == s.1,
        },
{
    // Apply global flags from .IGNORE and .SILENT before building
    let effective = apply_global_flags(args, mf);
    let mut graph = mf.graph.dup();
    let mut executor = Executor::new(&effective, &mf.vars, level.depth, program);
    executor.build_all(goals, &mut graph, t)
}

fn carry_out(
    mf: Makefile,
    args: &Args,
    level: &Level,
    program: &str,
    t: &mut Transcript,
) -> (r: Result<i32, Stop>)
    requires
        level.depth < usize::MAX,
    ensures
        final(t).log() == old(t).log(),
        match carried_out(
            mf@,
            args@,
            level.depth as nat,
            program@,
            old(t).log(),
            old(t).at(),
        ) {
            Ok(p) => r == Ok::<i32, Stop>(p.0) && final(t).at() == p.1,
            Err(s) => r is Err && r->Err_0@ == s.0 && final(t).at() == s.1,
        },
{
    // -p: print database then exit
    if args.print_db {
        let lines = mf.print_db();
        show_lines(lines.as_slice(), t)?;
        return Ok(0);
    }
    let goals = select_goals(args, &mf, t)?;
    make_goals(mf, args, level, program, goals.as_slice(), t)
}

/// Runs the program with the arguments `argv`, on a machine with `nproc`
/// processors, in the environment `env`; `program` is the path of the program
/// itself. The result is the exit status.
pub fn run(
    argv: &[String],
    nproc: usize,
    env: &NameMap<String>,
    program: &str,
    t: &mut Transcript,
) -> (r: Result<i32, Stop>)
    requires
        level_of(env@) < usize::MAX,
    ensures
        final(t).log() == old(t).log(),
        match run_of(
            text::views(argv@),
            nproc as nat,
            env@,
            program@,
            old(t).log(),
            old(t).at(),
        ) {
            Ok(p) => r == Ok::<i32, Stop>(p.0) && final(t).at() == p.1,
            Err(s) => r is Err && r->Err_0@ == s.0 && final(t).at() == s.1,
        },
{
    let args = match parse(argv, nproc) {
        Ok(a) => a,
        Err(e) => {
            return Err(Stop::Failed(e));
        },
    };
    // Apply -C (chdir) before anything else
    change_directory(&args, t)?;
    // Find and load makefiles
    let paths = find_makefiles(&args, t)?;
    let dir = work_dir(t)?;
    let mut mf = load::load(paths.0.as_slice(), &args, env, program, dir.as_str(), t)?;
    // Apply -e: environment overrides file variables
    if args.env_override {
        force_env(&mut mf.vars, env);
    }
    let level = Level { depth: makelevel(env) };
    carry_out(mf, &args, &level, program, t)
}

// ── What holds of a run ─────────────────────────────────────────────────────

/// A run that came to its end is a success exactly where nothing failed and nothing was
/// found out of date; what failed counts for more than what is out of date.
pub proof fn lemma_status(failures: nat, outdated: bool)
    ensures
        status_of(failures, outdated) == 0i32 <==> failures == 0 && !outdated,
        status_of(failures, outdated) == 1i32 <==> failures == 0 && outdated,
        status_of(failures, outdated) == 2i32 <==> failures > 0,
{
}

/// How deep a run is nested: a number in the environment counts digit by digit, and what is
/// no number, or not there, counts as none.
pub proof fn lemma_level(env: Map<Seq<char>, Seq<char>>, s: Seq<char>, d: char)
    ensures
        !env.dom().contains("MAKELEVEL"@) ==> level_of(env) == 0,
        '0' <= d <= '9' ==> level_of(env.insert("MAKELEVEL"@, seq![d])) == (d as u32) - ('0' as u32),
        '0' <= d <= '9' && s.len() > 0 && s[0] != '+' && number::parsed(s) is Some && level_of(
            env.insert("MAKELEVEL"@, s),
        ) * 10 + ((d as u32) - ('0' as u32)) <= usize::MAX ==> level_of(
            env.insert("MAKELEVEL"@, s.push(d)),
        ) == level_of(env.insert("MAKELEVEL"@, s)) * 10 + ((d as u32) - ('0' as u32)),
        !('0' <= d <= '9') && s.len() > 0 ==> level_of(env.insert("MAKELEVEL"@, s.push(d))) == 0,
        level_of(env.insert("MAKELEVEL"@, seq![])) == 0,
{
    number::lemma_number(s, d, level_of(env.insert("MAKELEVEL"@, s)));
    number::lemma_number(seq![], d, 0);
}

/// `.IGNORE` and `.SILENT` without targets work as `-i` and `-s` do, and neither takes a
/// flag of the command line away.
pub proof fn lemma_flagged(a: ArgsView, mf: MakefileView)
    ensures
        flagged(a, mf) == (ArgsView {
            ignore_errors: flagged(a, mf).ignore_errors,
            silent: flagged(a, mf).silent,
            ..a
        }),
        !mf.global_ignore && !mf.global_silent ==> flagged(a, mf) == a,
        mf.global_ignore ==> flagged(a, mf).ignore_errors,
        mf.global_silent ==> flagged(a, mf).silent,
        a.ignore_errors ==> flagged(a, mf).ignore_errors,
        a.silent ==> flagged(a, mf).silent,
        !a.ignore_errors && !mf.global_ignore ==> !flagged(a, mf).ignore_errors,
        !a.silent && !mf.global_silent ==> !flagged(a, mf).silent,
{
}

/// The goals are all the targets of the command line, in their order; without any it is the
/// default goal alone, and without that there is an error.
pub proof fn lemma_goals(a: ArgsView, mf: MakefileView, log: Seq<AnswerView>, k: nat)
    requires
        mf.vars.vars.dom().finite(),
    ensures
        a.targets.len() > 0 ==> goals_of(a, mf, log, k) == Ok::<
            (Seq<Seq<char>>, nat),
            (world::StopView, nat),
        >((a.targets, k)),
        a.targets.len() == 0 ==> (mf.default_goal matches Some(g) ==> goals_of(a, mf, log, k)
            == Ok::<(Seq<Seq<char>>, nat), (world::StopView, nat)>((seq![g], k))),
        a.targets.len() == 0 && mf.default_goal is None && !mf.vars.vars.dom().contains(
            ".DEFAULT_GOAL"@,
        ) ==> goals_of(a, mf, log, k) == (match mf.first_target {
            Some(g) => Ok::<(Seq<Seq<char>>, nat), (world::StopView, nat)>((seq![g], k)),
            None => Err((world::StopView::Failed(ErrorView::Fatal("No targets"@)), k)),
        }),
{
    if mf.default_goal is None && !mf.vars.vars.dom().contains(".DEFAULT_GOAL"@) {
        makefile::lemma_goal(mf, log, k);
    }
}

/// Without `-e` the environment does not come in again; with it, it stands over what the
/// makefile has set, but not over the command line. Nothing but variables changes.
pub proof fn lemma_overridden(
    mf: MakefileView,
    a: ArgsView,
    env: Map<Seq<char>, Seq<char>>,
    x: Seq<char>,
)
    ensures
        !a.env_override ==> overridden(mf, a, env) == mf,
        overridden(mf, a, env) == (MakefileView { vars: overridden(mf, a, env).vars, ..mf }),
        a.env_override && env.dom().contains(x) && mf.vars.vars.dom().contains(x) && (
        mf.vars.vars[x].origin is File || mf.vars.vars[x].origin is Default
            || mf.vars.vars[x].origin is Override || mf.vars.vars[x].origin is Environment)
            ==> overridden(mf, a, env).vars.vars[x].raw == env[x],
        a.env_override && mf.vars.vars.dom().contains(x) && mf.vars.vars[x].origin is CommandLine
            ==> overridden(mf, a, env).vars.vars[x] == mf.vars.vars[x],
{
    load::lemma_env_forced(mf.vars, env, x);
}

/// `MAKECMDGOALS` names the goals, unless the command line has set it.
pub proof fn lemma_with_goals(mf: MakefileView, goals: Seq<Seq<char>>, x: Seq<char>)
    ensures
        ({
            let m = with_goals(mf, goals);
            let kept = mf.vars.vars.dom().contains("MAKECMDGOALS"@)
                && mf.vars.vars["MAKECMDGOALS"@].origin is CommandLine;
            &&& kept ==> m == mf
            &&& !kept ==> m.vars.vars.dom().contains("MAKECMDGOALS"@)
                && m.vars.vars["MAKECMDGOALS"@].raw == text::join(goals, seq![' '])
            &&& x != "MAKECMDGOALS"@ ==> m.vars.vars[x] == mf.vars.vars[x]
            &&& m == (MakefileView { vars: m.vars, ..mf })
        }),
{
    reveal_strlit(" ");
    assert(" "@ =~= seq![' ']);
}

/// `-C` has the directory changed before anything else is asked; where that fails, the run
/// ends with the directory's name and the reason. Without it nothing is asked.
pub proof fn lemma_moved(
    a: ArgsView,
    env: Map<Seq<char>, Seq<char>>,
    program: Seq<char>,
    dir: Seq<char>,
    why: Seq<char>,
    log: Seq<AnswerView>,
    k: nat,
)
    ensures
        a.directory is None ==> moved(a, log, k) == Ok::<((), nat), (world::StopView, nat)>(((), k)),
        a.directory == Some(dir) && k >= log.len() ==> run_with(a, env, program, log, k) == Err::<
            (i32, nat),
            (world::StopView, nat),
        >((world::StopView::Ask(QueryView::ChangeDir(dir)), k)),
        a.directory == Some(dir) && k < log.len() && log[k as int] == AnswerView::Failed(why)
            ==> run_with(a, env, program, log, k) == Err::<(i32, nat), (world::StopView, nat)>(
            (world::StopView::Failed(ErrorView::Fatal(dir + ": "@ + why)), k + 1),
        ),
        a.directory == Some(dir) && k < log.len() && !(log[k as int] is Failed) ==> moved(a, log, k)
            == Ok::<((), nat), (world::StopView, nat)>(((), k + 1)),
{
}

/// Under `-w` and `-C` it is told which directory is entered and left, and under neither
/// nothing is told.
pub proof fn lemma_directory_told(
    a: ArgsView,
    depth: nat,
    verb: Seq<char>,
    dir: Seq<char>,
    log: Seq<AnswerView>,
    k: nat,
)
    ensures
        !a.print_directory && a.directory is None ==> directory_told(a, depth, verb, log, k)
            == Ok::<((), nat), (world::StopView, nat)>(((), k)),
        (a.print_directory || a.directory is Some) && k + 1 == log.len() && log[k as int]
            == AnswerView::Text(dir) && depth == 0 ==> directory_told(a, depth, verb, log, k)
            == Err::<((), nat), (world::StopView, nat)>(
            (
                world::StopView::Ask(
                    QueryView::Warn("mk"@ + ": "@ + verb + " directory '"@ + dir + "'"@),
                ),
                k + 1,
            ),
        ),
        (a.print_directory || a.directory is Some) && k + 1 == log.len() && log[k as int]
            == AnswerView::Text(dir) && depth > 0 ==> directory_told(a, depth, verb, log, k)
            == Err::<((), nat), (world::StopView, nat)>(
            (
                world::StopView::Ask(
                    QueryView::Warn(
                        "mk["@ + number::decimal(depth) + "]"@ + ": "@ + verb + " directory '"@
                            + dir + "'"@,
                    ),
                ),
                k + 1,
            ),
        ),
        (a.print_directory || a.directory is Some) && k + 1 < log.len() ==> directory_told(
            a,
            depth,
            verb,
            log,
            k,
        ) == Ok::<((), nat), (world::StopView, nat)>(((), k + 2)),
{
}

/// Every line is shown, in order, and none twice.
pub proof fn lemma_lines_shown(lines: Seq<Seq<char>>, i: int, log: Seq<AnswerView>, k: nat)
    requires
        0 <= i <= lines.len(),
        k <= log.len(),
    ensures
        k + (lines.len() - i) <= log.len() ==> lines_shown(lines, i, log, k) == Ok::<
            ((), nat),
            (world::StopView, nat),
        >(((), (k + (lines.len() - i)) as nat)),
        k + (lines.len() - i) > log.len() ==> lines_shown(lines, i, log, k) == Err::<
            ((), nat),
            (world::StopView, nat),
        >((world::StopView::Ask(QueryView::Print(lines[i + (log.len() - k)])), log.len())),
    decreases lines.len() - i,
{
    if i < lines.len() && k < log.len() {
        lemma_lines_shown(lines, i + 1, log, k + 1);
    }
}

/// Under `-p` the database is shown and nothing is built; otherwise the goals are built, and
/// the exit status says what came of it.
pub proof fn lemma_carried_out(
    mf: MakefileView,
    a: ArgsView,
    depth: nat,
    program: Seq<char>,
    log: Seq<AnswerView>,
    k: nat,
)
    requires
        k <= log.len(),
    ensures
        ({
            let lines = database::database(mf);
            let r = carried_out(mf, a, depth, program, log, k);
            &&& a.print_db && k + lines.len() <= log.len() ==> r == Ok::<
                (i32, nat),
                (world::StopView, nat),
            >((0i32, k + lines.len()))
            &&& !a.print_db && a.targets.len() > 0 && !a.print_directory && a.directory is None ==> {
                let m = with_goals(mf, a.targets);
                let x = ExecView {
                    args: flagged(a, mf),
                    vars: m.vars,
                    makelevel: depth,
                    program,
                    in_progress: seq![],
                };
                match exec::goals_built(x, m.graph, a.targets, log, k) {
                    Err(s) => r == Err::<(i32, nat), (world::StopView, nat)>(s),
                    Ok(q) => r matches Ok(w) && w.1 == q.1 && (w.0 == 0i32 <==> q.0.0.0 == 0
                        && !q.0.0.1) && (w.0 == 2i32 <==> q.0.0.0 > 0),
                }
            }
        }),
{
    lemma_lines_shown(database::database(mf), 0, log, k);
}

} // verus!
