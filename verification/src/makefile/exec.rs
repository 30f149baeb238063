//! Sequential recipe execution.

use vstd::prelude::*;
use crate::args::{Args, ArgsView};
use crate::error::{Error, ErrorView, Loc, LocView};
use crate::number;
use crate::number::{decimal_chars, decimal_i32};
use crate::search;
use crate::search::replace;
use crate::text;
use crate::text::{
    append,
    append_str,
    chars_of,
    dup_all,
    has_string,
    join_strings,
    owned,
    string_of,
    Dup,
    Maybe,
};
use crate::world;
use crate::world::{is_yes, Answer, AnswerView, Query, QueryView, Stop, Told, Transcript};
use super::expand;
use super::expand::{expand_chars, expand_value, AutoVars, AutoView};
use super::functions;
use super::graph;
use super::graph::{collect_names, BuildGraph, EntryView, GraphView, TargetEntry, TopoOrder};
use super::parse;
use super::rule::{Prereq, PrereqView, RecipeLine, RecipeLineView, Rule, RuleView};
use super::rules;
use super::var::{VarTable, VarTableView};

verus! {

/// Outcome of attempting to build a target.
#[derive(Debug)]
pub enum BuildResult {
    /// Target was (re)built successfully.
    Built,
    /// Target was already up to date.
    UpToDate,
    /// Target is out of date, and nobody wants it built (`-q`).
    OutOfDate,
    /// Build failed; if `keep_going`, we continue.
    Failed(Error),
}

pub enum BuildResultView {
    Built,
    UpToDate,
    OutOfDate,
    Failed(ErrorView),
}

impl View for BuildResult {
    type V = BuildResultView;

    open spec fn view(&self) -> BuildResultView {
        match *self {
            BuildResult::Built => BuildResultView::Built,
            BuildResult::UpToDate => BuildResultView::UpToDate,
            BuildResult::OutOfDate => BuildResultView::OutOfDate,
            BuildResult::Failed(e) => BuildResultView::Failed(e@),
        }
    }
}

/// What came of building some goals.
#[derive(Debug, Clone, Copy, PartialEq, Eq, Structural)]
pub struct Outcome {
    /// The number of targets that failed.
    pub failures: usize,
    /// Whether, under `-q`, a target was found out of date.
    pub outdated: bool,
}

impl View for Outcome {
    type V = Outcome;

    open spec fn view(&self) -> Outcome {
        *self
    }
}

/// Builds targets.
#[derive(Debug)]
pub struct Executor<'a> {
    pub args: &'a Args,
    pub vars: &'a VarTable,
    /// MAKELEVEL for recursive $(MAKE) calls.
    pub makelevel: usize,
    /// The path of the running program, which `$(MAKE)` stands for.
    pub program: &'a str,
    /// Targets currently being built (for detecting `.PRECIOUS` on interrupt).
    pub in_progress: Vec<String>,
}

pub struct ExecView {
    pub args: ArgsView,
    pub vars: VarTableView,
    pub makelevel: nat,
    pub program: Seq<char>,
    pub in_progress: Seq<Seq<char>>,
}

impl<'a> View for Executor<'a> {
    type V = ExecView;

    open spec fn view(&self) -> ExecView {
        ExecView {
            args: self.args@,
            vars: self.vars@,
            makelevel: self.makelevel as nat,
            program: self.program@,
            in_progress: text::views(self.in_progress@),
        }
    }
}

// ── Automatic variables ─────────────────────────────────────────────────────

/// The first `n` names, each where it comes first.
pub open spec fn uniques(list: Seq<Seq<char>>, n: int) -> Seq<Seq<char>>
    decreases n,
{
    if n <= 0 {
        seq![]
    } else {
        let before = uniques(list, n - 1);
        if before.contains(list[n - 1]) {
            before
        } else {
            before.push(list[n - 1])
        }
    }
}

/// Each name is there once, and none is lost.
pub proof fn lemma_uniques(list: Seq<Seq<char>>, n: int)
    requires
        0 <= n <= list.len(),
    ensures
        uniques(list, n).no_duplicates(),
        forall|x: Seq<char>| #[trigger]
            uniques(list, n).contains(x) <==> list.take(n).contains(x),
    decreases n,
{
    if n > 0 {
        lemma_uniques(list, n - 1);
        let before = uniques(list, n - 1);
        let after = uniques(list, n);
        let y = list[n - 1];
        let shorter = list.take(n - 1);
        assert(list.take(n) =~= shorter.push(y));
        assert forall|x: Seq<char>| #[trigger] after.contains(x) <==> list.take(n).contains(x) by {
            assert(before.contains(x) <==> shorter.contains(x));
            text::lemma_push_contains(shorter, y);
            text::lemma_push_contains(before, y);
        }
    }
}

/// Names with spaces between them.
pub open spec fn spaced(list: Seq<Seq<char>>) -> Seq<char> {
    text::join(list, " "@)
}

/// The automatic variables for a target.
pub open spec fn auto_for(
    target: Seq<char>,
    normal: Seq<Seq<char>>,
    order_only: Seq<Seq<char>>,
    newer: Seq<Seq<char>>,
    stem: Seq<char>,
) -> AutoView {
    AutoView {
        target,
        first_prereq: functions::arg(normal, 0),
        all_prereqs: spaced(uniques(normal, normal.len() as int)),
        all_prereqs_dup: spaced(normal),
        newer_prereqs: spaced(newer),
        stem,
        order_only: spaced(order_only),
    }
}

fn distinct(list: &[String]) -> (r: Vec<String>)
    ensures
        text::views(r@) == uniques(text::views(list@), list@.len() as int),
{
    broadcast use text::group_views;

    let mut out: Vec<String> = Vec::new();
    let mut i: usize = 0;
    while i < list.len()
        invariant
            i <= list@.len(),
            text::views(out@) == uniques(text::views(list@), i as int),
        decreases list.len() - i,
    {
        assert(text::views(list@)[i as int] == list@[i as int]@);
        if !has_string(out.as_slice(), list[i].as_str()) {
            out.push(list[i].dup());
        }
        i = i + 1;
    }
    out
}

// ── Running a recipe ────────────────────────────────────────────────────────

/// A command with the program's own path for `$(MAKE)` and `${MAKE}`.
pub open spec fn own_path(cmd: Seq<char>, program: Seq<char>) -> Seq<char> {
    search::replaced(search::replaced(cmd, 0, "$(MAKE)"@, program), 0, "${MAKE}"@, program)
}

/// The shell that runs recipes: the value of `SHELL`, where it has one.
pub open spec fn shell_of(
    vars: VarTableView,
    loc: LocView,
    log: Seq<AnswerView>,
    k: nat,
) -> Told<Seq<char>> {
    match expand::value_of("SHELL"@, vars, None, loc, false, log, k) {
        Err(s) => Err(s),
        Ok(p) => if p.0.len() == 0 {
            Ok(("/bin/sh"@, p.1))
        } else {
            Ok(p)
        },
    }
}

/// What recipes find in their environment, besides what the program found in its
/// own.
pub open spec fn exports_of(x: ExecView) -> Map<Seq<char>, Seq<char>> {
    x.vars.exports().insert("MAKELEVEL"@, number::decimal(x.makelevel + 1))
}

/// What follows from how a command ended. A failure is reported; it ends the
/// recipe unless errors are ignored.
pub open spec fn judged(
    a: AnswerView,
    ignore: bool,
    target: Seq<char>,
    loc: LocView,
    log: Seq<AnswerView>,
    k: nat,
) -> Told<()> {
    match a {
        AnswerView::Exit(status) => if status == Some(0i32) {
            Ok(((), k))
        } else {
            let code = match status {
                Some(c) => c,
                None => 1i32,
            };
            let report = if ignore {
                ErrorView::Warning(loc, "ignoring errors from recipe for '"@ + target + "'"@)
            } else {
                ErrorView::RecipeError { loc, target, code: code as int }
            };
            match world::asked(log, k, QueryView::Report(report)) {
                Err(s) => Err(s),
                Ok(b) => if ignore {
                    Ok(((), b.1))
                } else {
                    world::failed(
                        ErrorView::FatalAt(
                            loc,
                            "["@ + target + "] Error "@ + number::decimal_int(code as int),
                        ),
                        b.1,
                    )
                },
            }
        },
        _ => if ignore {
            Ok(((), k))
        } else {
            world::failed(
                ErrorView::FatalAt(
                    loc,
                    "recipe for target '"@ + target + "' failed: "@ + parse::reason(a),
                ),
                k,
            )
        },
    }
}

/// What a line of a recipe does once it is expanded: the command is shown,
/// unless it is silent, and run, unless only shown.
pub open spec fn command_run(
    x: ExecView,
    line: RecipeLineView,
    cmd: Seq<char>,
    target: Seq<char>,
    loc: LocView,
    log: Seq<AnswerView>,
    k: nat,
) -> Told<()> {
    let shown = if line.silent || x.args.silent {
        Ok((AnswerView::Done, k))
    } else {
        world::asked(log, k, QueryView::Print(cmd))
    };
    match shown {
        Err(s) => Err(s),
        Ok(p) => if x.args.dry_run && !line.always_run {
            Ok(((), p.1))
        } else {
            match shell_of(x.vars, loc, log, p.1) {
                Err(s) => Err(s),
                Ok(q) => match world::asked(
                    log,
                    q.1,
                    QueryView::Run { shell: q.0, command: cmd, exports: exports_of(x) },
                ) {
                    Err(s) => Err(s),
                    Ok(a) => judged(
                        a.0,
                        line.ignore_error || x.args.ignore_errors,
                        target,
                        loc,
                        log,
                        a.1,
                    ),
                },
            }
        },
    }
}

/// What the lines of a recipe from position `i` on do.
pub open spec fn recipe_run(
    x: ExecView,
    recipe: Seq<RecipeLineView>,
    i: int,
    auto: AutoView,
    target: Seq<char>,
    loc: LocView,
    log: Seq<AnswerView>,
    k: nat,
) -> Told<()>
    decreases recipe.len() - i,
{
    if i < 0 || i >= recipe.len() {
        Ok(((), k))
    } else {
        match expand::expansion(recipe[i].text, x.vars, Some(auto), loc, false, log, k) {
            Err(s) => Err(s),
            Ok(p) => match command_run(
                x,
                recipe[i],
                own_path(p.0, x.program),
                target,
                loc,
                log,
                p.1,
            ) {
                Err(s) => Err(s),
                Ok(q) => recipe_run(x, recipe, i + 1, auto, target, loc, log, q.1),
            },
        }
    }
}

// ── Building a target ───────────────────────────────────────────────────────

/// The modification time that is found now.
pub open spec fn time_now(path: Seq<char>, log: Seq<AnswerView>, k: nat) -> Told<Option<i128>> {
    match world::asked(log, k, QueryView::ModTime(path)) {
        Err(s) => Err(s),
        Ok(a) => Ok(
            (
                match a.0 {
                    AnswerView::Time(n) => Some(n),
                    _ => None,
                },
                a.1,
            ),
        ),
    }
}

/// Those of the names from position `i` on that are missing or newer than `tm`.
pub open spec fn newer_than(
    list: Seq<Seq<char>>,
    i: int,
    tm: i128,
    log: Seq<AnswerView>,
    k: nat,
) -> Told<Seq<Seq<char>>>
    decreases list.len() - i,
{
    if i < 0 || i >= list.len() {
        Ok((seq![], k))
    } else {
        match time_now(list[i], log, k) {
            Err(s) => Err(s),
            Ok(p) => world::after(
                match p.0 {
                    Some(pm) if pm <= tm => seq![],
                    _ => seq![list[i]],
                },
                newer_than(list, i + 1, tm, log, p.1),
            ),
        }
    }
}

/// The prerequisites that are newer than a target: all where it is missing.
pub open spec fn newer_prereqs(
    target: Seq<char>,
    list: Seq<Seq<char>>,
    log: Seq<AnswerView>,
    k: nat,
) -> Told<Seq<Seq<char>>> {
    match time_now(target, log, k) {
        Err(s) => Err(s),
        Ok(p) => match p.0 {
            None => Ok((list, p.1)),
            Some(tm) => newer_than(list, 0, tm, log, p.1),
        },
    }
}

/// What touching a target does.
pub open spec fn touched(
    x: ExecView,
    target: Seq<char>,
    log: Seq<AnswerView>,
    k: nat,
) -> Told<BuildResultView> {
    let shown = if x.args.silent {
        Ok((AnswerView::Done, k))
    } else {
        world::asked(log, k, QueryView::Print("touch "@ + target))
    };
    match shown {
        Err(s) => Err(s),
        Ok(p) => if x.args.dry_run {
            Ok((BuildResultView::Built, p.1))
        } else {
            match world::asked(log, p.1, QueryView::Exists(target)) {
                Err(s) => Err(s),
                Ok(a) => match world::asked(
                    log,
                    a.1,
                    if world::says_yes(a.0) {
                        QueryView::Touch(target)
                    } else {
                        QueryView::Create(target)
                    },
                ) {
                    Err(s) => Err(s),
                    Ok(b) => Ok((BuildResultView::Built, b.1)),
                },
            }
        },
    }
}

/// What the double-colon rules of a target from position `j` on do. A failure
/// ends it, unless errors are ignored or the work is to go on; `held` is the last
/// failure after which it went on, and then becomes the result.
pub open spec fn double_run(
    x: ExecView,
    list: Seq<RuleView>,
    j: int,
    held: Option<ErrorView>,
    target: Seq<char>,
    log: Seq<AnswerView>,
    k: nat,
) -> Told<BuildResultView>
    decreases list.len() - j,
{
    if j < 0 || j >= list.len() {
        match held {
            None => Ok((BuildResultView::Built, k)),
            Some(e) => Ok((BuildResultView::Failed(e), k)),
        }
    } else {
        let names = rules::names_of(list[j].prereqs);
        let auto = auto_for(target, names, seq![], names, seq![]);
        match world::caught(
            recipe_run(x, list[j].recipe, 0, auto, target, list[j].loc, log, k),
        ) {
            Err(s) => Err(s),
            Ok(p) => match p.0 {
                None => double_run(x, list, j + 1, held, target, log, p.1),
                Some(e) => if x.args.ignore_errors {
                    match world::asked(log, p.1, QueryView::Report(e)) {
                        Err(s) => Err(s),
                        Ok(a) => double_run(x, list, j + 1, held, target, log, a.1),
                    }
                } else if x.args.keep_going {
                    match held {
                        None => double_run(x, list, j + 1, Some(e), target, log, p.1),
                        Some(h) => match world::asked(log, p.1, QueryView::Report(h)) {
                            Err(s) => Err(s),
                            Ok(a) => double_run(x, list, j + 1, Some(e), target, log, a.1),
                        },
                    }
                } else {
                    Ok((BuildResultView::Failed(e), p.1))
                },
            },
        }
    }
}

/// A recipe run, with a failure as its result.
pub open spec fn recipe_result(
    x: ExecView,
    recipe: Seq<RecipeLineView>,
    auto: AutoView,
    target: Seq<char>,
    loc: LocView,
    done: BuildResultView,
    log: Seq<AnswerView>,
    k: nat,
) -> Told<BuildResultView> {
    match world::caught(recipe_run(x, recipe, 0, auto, target, loc, log, k)) {
        Err(s) => Err(s),
        Ok(p) => match p.0 {
            None => Ok((done, p.1)),
            Some(e) => Ok((BuildResultView::Failed(e), p.1)),
        },
    }
}

/// What is done for a target that no rule has a recipe for: the default recipe
/// is run. Where there is none, the file has to exist.
pub open spec fn default_run(
    x: ExecView,
    g: GraphView,
    target: Seq<char>,
    loc: LocView,
    log: Seq<AnswerView>,
    k: nat,
) -> Told<BuildResultView> {
    match g.default_recipe {
        Some(recipe) => if x.args.touch {
            touched(x, target, log, k)
        } else if x.args.question {
            Ok((BuildResultView::OutOfDate, k))
        } else {
            recipe_result(
                x,
                recipe,
                auto_for(target, seq![], seq![], seq![], seq![]),
                target,
                loc,
                BuildResultView::UpToDate,
                log,
                k,
            )
        },
        None => match world::asked(log, k, QueryView::Exists(target)) {
            Err(s) => Err(s),
            Ok(a) => if world::says_yes(a.0) {
                Ok((BuildResultView::UpToDate, a.1))
            } else {
                Ok(
                    (
                        BuildResultView::Failed(
                            ErrorView::Fatal(
                                "No rule to make target '"@ + target + "'"@,
                            ),
                        ),
                        a.1,
                    ),
                )
            },
        },
    }
}

/// Where the recipe of a target stands.
pub open spec fn recipe_place(e: EntryView, target: Seq<char>) -> LocView {
    match e.recipe_loc {
        Some(l) => l,
        None => LocView { file: target, line: 0 },
    }
}

/// What is done for a target with a recipe.
pub open spec fn single_run(
    x: ExecView,
    e: EntryView,
    target: Seq<char>,
    log: Seq<AnswerView>,
    k: nat,
) -> Told<BuildResultView> {
    let normal = graph::normal_names(e.prereqs);
    match newer_prereqs(target, normal, log, k) {
        Err(s) => Err(s),
        Ok(p) => {
            let stem = match e.stem {
                Some(s) => s,
                None => seq![],
            };
            let auto = auto_for(target, normal, graph::order_only_names(e.prereqs), p.0, stem);
            if x.args.touch {
                touched(x, target, log, p.1)
            } else if x.args.question {
                Ok((BuildResultView::OutOfDate, p.1))
            } else {
                recipe_result(
                    x,
                    e.recipe,
                    auto,
                    target,
                    recipe_place(e, target),
                    BuildResultView::Built,
                    log,
                    p.1,
                )
            }
        },
    }
}

/// The graph in which a target's modification time has to be asked for again.
pub open spec fn invalidated(g: GraphView, target: Seq<char>) -> GraphView {
    if g.has(target) {
        g.put(target, EntryView { mtime: None, ..g.at(target) })
    } else {
        g
    }
}

/// Whether some rule is about a target.
pub open spec fn has_rule(e: EntryView) -> bool {
    e.loc is Some || e.prereqs.len() > 0 || e.recipe.len() > 0 || e.dc_rules.len() > 0
        || e.implicit_rule is Some
}

/// What is done for a target that has to be rebuilt. There is nothing to do where
/// its rules have no recipe; where no rule is about it, the recipe of `.DEFAULT`
/// takes their place.
pub open spec fn rebuilt(
    x: ExecView,
    g: GraphView,
    target: Seq<char>,
    log: Seq<AnswerView>,
    k: nat,
) -> Told<BuildResultView> {
    let e = g.at(target);
    if e.dc_rules.len() > 0 {
        if x.args.touch {
            touched(x, target, log, k)
        } else if x.args.question {
            Ok((BuildResultView::OutOfDate, k))
        } else {
            double_run(x, e.dc_rules, 0, None, target, log, k)
        }
    } else if e.recipe.len() == 0 && has_rule(e) {
        Ok((BuildResultView::UpToDate, k))
    } else if e.recipe.len() == 0 {
        default_run(x, g, target, recipe_place(e, target), log, k)
    } else {
        single_run(x, e, target, log, k)
    }
}

/// What is done for a target, and the graph afterwards. Where it was built, the
/// modification time is not known any more.
pub open spec fn built(
    x: ExecView,
    g: GraphView,
    target: Seq<char>,
    log: Seq<AnswerView>,
    k: nat,
) -> Told<(BuildResultView, GraphView)> {
    match graph::stale(g, target, log, k) {
        Err(s) => Err(s),
        Ok(p) => if !p.0.0 {
            Ok(((BuildResultView::UpToDate, p.0.1), p.1))
        } else {
            match rebuilt(x, p.0.1, target, log, p.1) {
                Err(s) => Err(s),
                Ok(q) => Ok(
                    (
                        (
                            q.0,
                            if q.0 is Built {
                                invalidated(p.0.1, target)
                            } else {
                                p.0.1
                            },
                        ),
                        q.1,
                    ),
                ),
            }
        },
    }
}

// ── Building goals ──────────────────────────────────────────────────────────

/// The warnings for the circular dependencies from position `i` on.
pub open spec fn circles_told(
    dropped: Seq<(Seq<char>, Seq<char>)>,
    i: int,
    log: Seq<AnswerView>,
    k: nat,
) -> Told<()>
    decreases dropped.len() - i,
{
    if i < 0 || i >= dropped.len() {
        Ok(((), k))
    } else {
        match world::asked(log, k, QueryView::Warn(circle_line(dropped[i].0, dropped[i].1))) {
            Err(s) => Err(s),
            Ok(a) => circles_told(dropped, i + 1, log, a.1),
        }
    }
}

/// The warning for a circular dependency of a target on a prerequisite.
pub open spec fn circle_line(target: Seq<char>, name: Seq<char>) -> Seq<char> {
    "mk: Circular "@ + target + " <- "@ + name + " dependency dropped."@
}

/// The graph after implicit rules were looked for, for the targets from position
/// `i` on.
pub open spec fn all_resolved(
    g: GraphView,
    order: Seq<Seq<char>>,
    i: int,
    log: Seq<AnswerView>,
    k: nat,
) -> Told<GraphView>
    decreases order.len() - i,
{
    if i < 0 || i >= order.len() {
        Ok((g, k))
    } else {
        match graph::resolved(g, order[i], log, k) {
            Err(s) => Err(s),
            Ok(p) => all_resolved(p.0.1, order, i + 1, log, p.1),
        }
    }
}

/// Those of the first `n` names that are not in `done`.
pub open spec fn unlisted(list: Seq<Seq<char>>, done: Seq<Seq<char>>, n: int) -> Seq<Seq<char>>
    decreases n,
{
    if n <= 0 {
        seq![]
    } else if done.contains(list[n - 1]) {
        unlisted(list, done, n - 1)
    } else {
        unlisted(list, done, n - 1).push(list[n - 1])
    }
}

/// The graph in which implicit rules were looked for, for all the targets that the
/// goals need except those in `done`, and the build order. A rule may bring in
/// targets for which rules have to be looked for in turn; where looking took no
/// answer, it has brought in none.
pub open spec fn planned(
    g: GraphView,
    goals: Seq<Seq<char>>,
    done: Seq<Seq<char>>,
    log: Seq<AnswerView>,
    k: nat,
) -> Told<(GraphView, graph::Walk)>
    decreases log.len() - k,
{
    let order = graph::topo(g, goals).order;
    let fresh = unlisted(order, done, order.len() as int);
    match all_resolved(g, fresh, 0, log, k) {
        Err(s) => Err(s),
        Ok(p) => if k < p.1 && p.1 <= log.len() {
            planned(p.0, goals, done + fresh, log, p.1)
        } else {
            Ok(((p.0, graph::topo(p.0, goals)), p.1))
        },
    }
}

/// Whether one of the prerequisites has failed.
pub open spec fn some_failed(prereqs: Seq<PrereqView>, failed: Seq<Seq<char>>) -> bool {
    exists|j: int| 0 <= j < prereqs.len() && failed.contains((#[trigger] prereqs[j]).name)
}

/// Whether a target cannot be built because something that it depends on has
/// failed.
pub open spec fn blocked(e: EntryView, failed: Seq<Seq<char>>) -> bool {
    some_failed(graph::all_prereqs(e), failed)
}

/// What comes of building the targets from position `i` on, after those in
/// `failed` have failed and `outdated` was found. A failure is reported and
/// counted; unless the work is to go on, it ends there. What depends on a target
/// that has failed is passed over and counts as failed too.
pub open spec fn all_built(
    x: ExecView,
    g: GraphView,
    order: Seq<Seq<char>>,
    i: int,
    failed: Seq<Seq<char>>,
    outdated: bool,
    log: Seq<AnswerView>,
    k: nat,
) -> Told<((nat, bool), GraphView)>
    decreases order.len() - i,
{
    if i < 0 || i >= order.len() {
        Ok((((failed.len(), outdated), g), k))
    } else if blocked(g.at(order[i]), failed) {
        all_built(x, g, order, i + 1, failed.push(order[i]), outdated, log, k)
    } else {
        match built(x, g, order[i], log, k) {
            Err(s) => Err(s),
            Ok(p) => match p.0.0 {
                BuildResultView::Failed(e) => match world::asked(
                    log,
                    p.1,
                    QueryView::Report(e),
                ) {
                    Err(s) => Err(s),
                    Ok(a) => if x.args.keep_going {
                        let more = failed.push(order[i]);
                        all_built(x, p.0.1, order, i + 1, more, outdated, log, a.1)
                    } else {
                        Ok((((failed.len() + 1, outdated), p.0.1), a.1))
                    },
                },
                BuildResultView::OutOfDate => if x.args.keep_going {
                    all_built(x, p.0.1, order, i + 1, failed, true, log, p.1)
                } else {
                    Ok((((failed.len(), true), p.0.1), p.1))
                },
                _ => all_built(x, p.0.1, order, i + 1, failed, outdated, log, p.1),
            },
        }
    }
}

/// What comes of building some goals, and the graph afterwards.
#[verifier::opaque]
pub open spec fn goals_built(
    x: ExecView,
    g: GraphView,
    goals: Seq<Seq<char>>,
    log: Seq<AnswerView>,
    k: nat,
) -> Told<((nat, bool), GraphView)> {
    match planned(g, goals, seq![], log, k) {
        Err(s) => Err(s),
        Ok(p) => match circles_told(p.0.1.dropped, 0, log, p.1) {
            Err(s) => Err(s),
            Ok(q) => all_built(x, p.0.0, p.0.1.order, 0, seq![], false, log, q.1),
        },
    }
}

impl<'a> Executor<'a> {
    pub fn new(args: &'a Args, vars: &'a VarTable, makelevel: usize, program: &'a str) -> (r: Self)
        ensures
            r@ == (ExecView {
                args: args@,
                vars: vars@,
                makelevel: makelevel as nat,
                program: program@,
                in_progress: seq![],
            }),
    {
        broadcast use text::group_views;

        Executor { args, vars, makelevel, program, in_progress: Vec::new() }
    }

    /// The automatic variables of a rule whose prerequisites all count as newer.
    pub fn make_auto(&self, target: &str, prereqs: &[String], stem: &str) -> (r: AutoVars)
        ensures
            r@ == auto_for(
                target@,
                text::views(prereqs@),
                seq![],
                text::views(prereqs@),
                stem@,
            ),
    {
        broadcast use text::group_views;

        let none: Vec<String> = Vec::new();
        self.make_auto_full(target, prereqs, none.as_slice(), prereqs, stem)
    }

    /// The automatic variables for a target.
    pub fn make_auto_full(
        &self,
        target: &str,
        normal: &[String],
        order_only: &[String],
        newer: &[String],
        stem: &str,
    ) -> (r: AutoVars)
        ensures
            r@ == auto_for(
                target@,
                text::views(normal@),
                text::views(order_only@),
                text::views(newer@),
                stem@,
            ),
    {
        // Deduplicate for $^
        let deduped = distinct(normal);
        let first = if normal.len() > 0 {
            normal[0].dup()
        } else {
            let none: Vec<char> = Vec::new();
            string_of(none.as_slice())
        };
        AutoVars {
            target: owned(target),
            first_prereq: first,
            all_prereqs: join_strings(deduped.as_slice(), " "),
            all_prereqs_dup: join_strings(normal, " "),
            newer_prereqs: join_strings(newer, " "),
            stem: owned(stem),
            order_only: join_strings(order_only, " "),
        }
    }

    /// Replace $(MAKE) / ${MAKE} with our own binary path.
    fn replace_make_var(&self, cmd: &[char]) -> (r: Vec<char>)
        ensures
            r@ == own_path(cmd@, self@.program),
    {
        let path = chars_of(self.program);
        let once = replace(cmd, chars_of("$(MAKE)").as_slice(), path.as_slice());
        replace(once.as_slice(), chars_of("${MAKE}").as_slice(), path.as_slice())
    }

    fn judge(
        &self,
        a: Answer,
        ignore: bool,
        target: &str,
        loc: &Loc,
        t: &mut Transcript,
    ) -> (r: Result<(), Stop>)
        ensures
            world::moves(
                r,
                *old(t),
                *final(t),
                (),
                judged(a@, ignore, target@, loc@, old(t).log(), old(t).at()),
            ),
    {
        match a {
            Answer::Exit(status) => {
                let code = match status {
                    Some(c) => {
                        if c == 0 {
                            return Ok(());
                        }
                        c
                    },
                    None => 1i32,
                };
                if ignore {
                    let mut msg = chars_of("ignoring errors from recipe for '");
                    append_str(&mut msg, target);
                    append_str(&mut msg, "'");
                    let e = Error::Warning(loc.dup(), string_of(msg.as_slice()));
                    let _ = t.ask(Query::Report(e))?;
                    return Ok(());
                }
                let e = Error::RecipeError { loc: loc.dup(), target: owned(target), code };
                let _ = t.ask(Query::Report(e))?;
                let mut msg = chars_of("[");
                append_str(&mut msg, target);
                append_str(&mut msg, "] Error ");
                append(&mut msg, decimal_i32(code).as_slice());
                Err(Stop::Failed(Error::FatalAt(loc.dup(), string_of(msg.as_slice()))))
            },
            a => {
                if ignore {
                    return Ok(());
                }
                let mut msg = chars_of("recipe for target '");
                append_str(&mut msg, target);
                append_str(&mut msg, "' failed: ");
                if let Answer::Failed(e) = a {
                    append_str(&mut msg, e.as_str());
                } else {
                    assert(msg@ + Seq::<char>::empty() =~= msg@);
                }
                Err(Stop::Failed(Error::FatalAt(loc.dup(), string_of(msg.as_slice()))))
            },
        }
    }

    fn run_command(
        &self,
        line: &RecipeLine,
        cmd: &[char],
        target: &str,
        loc: &Loc,
        t: &mut Transcript,
    ) -> (r: Result<(), Stop>)
        requires
            self.makelevel < usize::MAX,
        ensures
            world::moves(
                r,
                *old(t),
                *final(t),
                (),
                command_run(self@, line@, cmd@, target@, loc@, old(t).log(), old(t).at()),
            ),
    {
        if !(line.silent || self.args.silent) {
            let _ = t.ask(Query::Print(string_of(cmd)))?;
        }
        if self.args.dry_run && !line.always_run {
            return Ok(());
        }
        let configured = expand_value("SHELL", self.vars, None, loc, t)?;
        let shell = if configured.len() == 0 {
            owned("/bin/sh")
        } else {
            string_of(configured.as_slice())
        };
        let mut exports = self.vars.env_exports();
        let level = decimal_chars(self.makelevel + 1);
        exports.insert(owned("MAKELEVEL"), string_of(level.as_slice()));
        let a = t.ask(Query::Run { shell, command: string_of(cmd), exports })?;
        self.judge(a, line.ignore_error || self.args.ignore_errors, target, loc, t)
    }

    fn run_recipe(
        &self,
        recipe: &[RecipeLine],
        auto: &AutoVars,
        target: &str,
        loc: &Loc,
        t: &mut Transcript,
    ) -> (r: Result<(), Stop>)
        requires
            self.makelevel < usize::MAX,
        ensures
            world::moves(
                r,
                *old(t),
                *final(t),
                (),
                recipe_run(
                    self@,
                    text::views(recipe@),
                    0,
                    auto@,
                    target@,
                    loc@,
                    old(t).log(),
                    old(t).at(),
                ),
            ),
    {
        let ghost all = text::views(recipe@);
        let ghost want = recipe_run(
            self@,
            all,
            0,
            auto@,
            target@,
            loc@,
            t.log(),
            t.at(),
        );
        let mut i: usize = 0;
        while i < recipe.len()
            invariant
                self.makelevel < usize::MAX,
                i <= recipe@.len(),
                all == text::views(recipe@),
                t.log() == old(t).log(),
                want == recipe_run(
                    self@,
                    text::views(recipe@),
                    0,
                    auto@,
                    target@,
                    loc@,
                    old(t).log(),
                    old(t).at(),
                ),
                want == recipe_run(
                    self@,
                    all,
                    i as int,
                    auto@,
                    target@,
                    loc@,
                    t.log(),
                    t.at(),
                ),
            decreases recipe.len() - i,
        {
            assert(all[i as int] == recipe@[i as int]@);
            let raw = chars_of(recipe[i].text.as_str());
            let expanded = expand_chars(raw.as_slice(), self.vars, Some(auto), loc, t)?;
            let cmd = self.replace_make_var(expanded.as_slice());
            self.run_command(&recipe[i], cmd.as_slice(), target, loc, t)?;
            i = i + 1;
        }
        Ok(())
    }

    /// Runs a recipe and gives back how it failed, if it did.
    fn try_recipe(
        &self,
        recipe: &[RecipeLine],
        auto: &AutoVars,
        target: &str,
        loc: &Loc,
        t: &mut Transcript,
    ) -> (r: Result<Maybe<Error>, Stop>)
        requires
            self.makelevel < usize::MAX,
        ensures
            world::tells(
                r,
                *old(t),
                *final(t),
                world::caught(
                    recipe_run(
                        self@,
                        text::views(recipe@),
                        0,
                        auto@,
                        target@,
                        loc@,
                        old(t).log(),
                        old(t).at(),
                    ),
                ),
            ),
    {
        match self.run_recipe(recipe, auto, target, loc, t) {
            Ok(_) => Ok(Maybe(None)),
            Err(Stop::Failed(e)) => Ok(Maybe(Some(e))),
            Err(s) => Err(s),
        }
    }

    fn do_touch(&self, target: &str, t: &mut Transcript) -> (r: Result<BuildResult, Stop>)
        ensures
            world::tells(
                r,
                *old(t),
                *final(t),
                touched(self@, target@, old(t).log(), old(t).at()),
            ),
    {
        if !self.args.silent {
            let mut line = chars_of("touch ");
            append_str(&mut line, target);
            let _ = t.ask(Query::Print(string_of(line.as_slice())))?;
        }
        if !self.args.dry_run {
            let here = t.ask(Query::Exists(owned(target)))?;
            if is_yes(&here) {
                let _ = t.ask(Query::Touch(owned(target)))?;
            } else {
                let _ = t.ask(Query::Create(owned(target)))?;
            }
        }
        Ok(BuildResult::Built)
    }

    fn run_doubles(&self, list: &[Rule], target: &str, t: &mut Transcript) -> (r: Result<
        BuildResult,
        Stop,
    >)
        requires
            self.makelevel < usize::MAX,
        ensures
            world::tells(
                r,
                *old(t),
                *final(t),
                double_run(
                    self@,
                    text::views(list@),
                    0,
                    None,
                    target@,
                    old(t).log(),
                    old(t).at(),
                ),
            ),
    {
        let ghost all = text::views(list@);
        let ghost want = double_run(self@, all, 0, None, target@, t.log(), t.at());
        proof {
            reveal_strlit("");
            assert(""@ =~= seq![]);
        }
        let mut held: Option<Error> = None;
        let mut j: usize = 0;
        while j < list.len()
            invariant
                self.makelevel < usize::MAX,
                j <= list@.len(),
                all == text::views(list@),
                ""@ == Seq::<char>::empty(),
                t.log() == old(t).log(),
                want == double_run(
                    self@,
                    text::views(list@),
                    0,
                    None,
                    target@,
                    old(t).log(),
                    old(t).at(),
                ),
                want == double_run(
                    self@,
                    all,
                    j as int,
                    text::view_of(held),
                    target@,
                    t.log(),
                    t.at(),
                ),
            decreases list.len() - j,
        {
            assert(all[j as int] == list@[j as int]@);
            let names = prereq_names(list[j].prereqs.as_slice());
            let auto = self.make_auto(target, names.as_slice(), "");
            let failed = self.try_recipe(
                list[j].recipe.as_slice(),
                &auto,
                target,
                &list[j].loc,
                t,
            )?;
            if let Some(e) = failed.0 {
                if self.args.ignore_errors {
                    let _ = t.ask(Query::Report(e))?;
                } else if self.args.keep_going {
                    let mut last: Option<Error> = Some(e);
                    std::mem::swap(&mut last, &mut held);
                    if let Some(h) = last {
                        let _ = t.ask(Query::Report(h))?;
                    }
                } else {
                    return Ok(BuildResult::Failed(e));
                }
            }
            j = j + 1;
        }
        match held {
            None => Ok(BuildResult::Built),
            Some(e) => Ok(BuildResult::Failed(e)),
        }
    }

    fn run_default(
        &self,
        graph: &BuildGraph,
        target: &str,
        loc: &Loc,
        t: &mut Transcript,
    ) -> (r: Result<BuildResult, Stop>)
        requires
            self.makelevel < usize::MAX,
        ensures
            world::tells(
                r,
                *old(t),
                *final(t),
                default_run(self@, graph@, target@, loc@, old(t).log(), old(t).at()),
            ),
    {
        broadcast use text::group_views;

        if let Some(recipe) = &graph.default_recipe {
            if self.args.touch {
                return self.do_touch(target, t);
            }
            if self.args.question {
                return Ok(BuildResult::OutOfDate);
            }
            proof {
                reveal_strlit("");
                assert(""@ =~= seq![]);
            }
            let none: Vec<String> = Vec::new();
            let auto = self.make_auto(target, none.as_slice(), "");
            let failed = self.try_recipe(recipe.as_slice(), &auto, target, loc, t)?;
            return match failed.0 {
                Some(e) => Ok(BuildResult::Failed(e)),
                None => Ok(BuildResult::UpToDate),
            };
        }
        // No rule: fatal unless the target is a file that exists
        let here = t.ask(Query::Exists(owned(target)))?;
        if is_yes(&here) {
            return Ok(BuildResult::UpToDate);
        }
        let mut msg = chars_of("No rule to make target '");
        append_str(&mut msg, target);
        append_str(&mut msg, "'");
        Ok(BuildResult::Failed(Error::Fatal(string_of(msg.as_slice()))))
    }

    fn run_single(&self, entry: &TargetEntry, target: &str, t: &mut Transcript) -> (r: Result<
        BuildResult,
        Stop,
    >)
        requires
            self.makelevel < usize::MAX,
        ensures
            world::tells(
                r,
                *old(t),
                *final(t),
                single_run(self@, entry@, target@, old(t).log(), old(t).at()),
            ),
    {
        let normal = collect_names(entry.prereqs.as_slice(), false);
        let order_only = collect_names(entry.prereqs.as_slice(), true);
        let newer = find_newer(target, normal.as_slice(), t)?;
        let stem = match &entry.stem {
            Some(s) => s.dup(),
            None => {
                let none: Vec<char> = Vec::new();
                string_of(none.as_slice())
            },
        };
        let auto = self.make_auto_full(
            target,
            normal.as_slice(),
            order_only.as_slice(),
            newer.0.as_slice(),
            stem.as_str(),
        );
        if self.args.touch {
            return self.do_touch(target, t);
        }
        if self.args.question {
            return Ok(BuildResult::OutOfDate);
        }
        let loc = place_of(entry, target);
        let failed = self.try_recipe(entry.recipe.as_slice(), &auto, target, &loc, t)?;
        match failed.0 {
            Some(e) => Ok(BuildResult::Failed(e)),
            None => Ok(BuildResult::Built),
        }
    }

    fn rebuild(&self, graph: &BuildGraph, target: &str, t: &mut Transcript) -> (r: Result<
        BuildResult,
        Stop,
    >)
        requires
            self.makelevel < usize::MAX,
        ensures
            world::tells(
                r,
                *old(t),
                *final(t),
                rebuilt(self@, graph@, target@, old(t).log(), old(t).at()),
            ),
    {
        let entry = graph.known(target);
        // Double-colon rules run independently
        if entry.double_colon_exists() {
            if self.args.touch {
                return self.do_touch(target, t);
            }
            if self.args.question {
                return Ok(BuildResult::OutOfDate);
            }
            return self.run_doubles(entry.dc_rules.as_slice(), target, t);
        }
        assert(entry@.recipe.len() == entry.recipe@.len());
        assert(entry@.prereqs.len() == entry.prereqs@.len());
        if entry.recipe.len() == 0 {
            if entry.loc.is_some() || entry.prereqs.len() > 0 || entry.implicit_rule.is_some() {
                return Ok(BuildResult::UpToDate);
            }
            let loc = place_of(&entry, target);
            return self.run_default(graph, target, &loc, t);
        }
        self.run_single(&entry, target, t)
    }

    fn build_one(&self, target: &str, graph: &mut BuildGraph, t: &mut Transcript) -> (r: Result<
        BuildResult,
        Stop,
    >)
        requires
            self.makelevel < usize::MAX,
        ensures
            final(t).log() == old(t).log(),
            match built(self@, old(graph)@, target@, old(t).log(), old(t).at()) {
                Ok(p) => r is Ok && r->Ok_0@ == p.0.0 && final(graph)@ == p.0.1 && final(t).at()
                    == p.1,
                Err(s) => r is Err && r->Err_0@ == s.0 && final(t).at() == s.1,
            },
    {
        // Check if up to date (after all prereqs have been processed)
        if !graph.check_stale(target, t)? {
            return Ok(BuildResult::UpToDate);
        }
        let result = self.rebuild(graph, target, t)?;
        if let BuildResult::Built = result {
            graph.invalidate_mtime(target);
        }
        Ok(result)
    }

    fn build_order(&self, order: &[String], graph: &mut BuildGraph, t: &mut Transcript) -> (r: Result<
        Outcome,
        Stop,
    >)
        requires
            self.makelevel < usize::MAX,
        ensures
            final(t).log() == old(t).log(),
            match all_built(
                self@,
                old(graph)@,
                text::views(order@),
                0,
                seq![],
                false,
                old(t).log(),
                old(t).at(),
            ) {
                Ok(p) => r is Ok && r->Ok_0.failures == p.0.0.0 && r->Ok_0.outdated == p.0.0.1
                    && final(graph)@ == p.0.1 && final(t).at() == p.1,
                Err(s) => r is Err && r->Err_0@ == s.0 && final(t).at() == s.1,
            },
    {
        let ghost all = text::views(order@);
        let ghost want = all_built(self@, graph@, all, 0, seq![], false, t.log(), t.at());
        let mut failed: Vec<String> = Vec::new();
        let mut outdated = false;
        let mut i: usize = 0;
        assert(text::views(failed@) =~= seq![]);
        while i < order.len()
            invariant
                self.makelevel < usize::MAX,
                i <= order@.len(),
                failed@.len() <= i,
                all == text::views(order@),
                t.log() == old(t).log(),
                want == all_built(
                    self@,
                    old(graph)@,
                    text::views(order@),
                    0,
                    seq![],
                    false,
                    old(t).log(),
                    old(t).at(),
                ),
                want == all_built(
                    self@,
                    graph@,
                    all,
                    i as int,
                    text::views(failed@),
                    outdated,
                    t.log(),
                    t.at(),
                ),
            decreases order.len() - i,
        {
            assert(all[i as int] == order@[i as int]@);
            let ghost before = text::views(failed@);
            if is_blocked(graph, order[i].as_str(), failed.as_slice()) {
                failed.push(order[i].dup());
                assert(text::views(failed@) =~= before.push(all[i as int]));
                i = i + 1;
                continue;
            }
            match self.build_one(order[i].as_str(), graph, t)? {
                BuildResult::Failed(e) => {
                    let _ = t.ask(Query::Report(e))?;
                    failed.push(order[i].dup());
                    assert(text::views(failed@) =~= before.push(all[i as int]));
                    if !self.args.keep_going {
                        return Ok(Outcome { failures: failed.len(), outdated });
                    }
                },
                BuildResult::OutOfDate => {
                    outdated = true;
                    if !self.args.keep_going {
                        return Ok(Outcome { failures: failed.len(), outdated });
                    }
                },
                _ => {},
            }
            i = i + 1;
        }
        Ok(Outcome { failures: failed.len(), outdated })
    }

    /// Build all `goals` in dependency order.
    /// Returns the number of targets that failed, and whether any was out of date
    /// under `-q`. Where the answers run out, the graph stays as it was.
    pub fn build_all(
        &mut self,
        goals: &[String],
        graph: &mut BuildGraph,
        t: &mut Transcript,
    ) -> (r: Result<Outcome, Stop>)
        requires
            old(self).makelevel < usize::MAX,
        ensures
            *final(self) == *old(self),
            final(t).log() == old(t).log(),
            match goals_built(
                old(self)@,
                old(graph)@,
                text::views(goals@),
                old(t).log(),
                old(t).at(),
            ) {
                Ok(p) => r is Ok && r->Ok_0.failures == p.0.0.0 && r->Ok_0.outdated == p.0.0.1
                    && final(graph)@ == p.0.1 && final(t).at() == p.1,
                Err(s) => r is Err && r->Err_0@ == s.0 && final(t).at() == s.1 && final(graph)@
                    == old(graph)@,
            },
    {
        reveal(goals_built);
        let mut copy = graph.dup();
        // Resolve implicit rules for targets without explicit recipes
        let w = plan(&mut copy, goals, t)?;
        tell_circles(w.dropped.as_slice(), t)?;
        let outcome = self.build_order(w.order.as_slice(), &mut copy, t)?;
        *graph = copy;
        Ok(outcome)
    }
}

fn any_failed(prereqs: &[Prereq], failed: &[String]) -> (r: bool)
    ensures
        r == some_failed(text::views(prereqs@), text::views(failed@)),
{
    let ghost all = text::views(prereqs@);
    let mut i: usize = 0;
    while i < prereqs.len()
        invariant
            i <= prereqs@.len(),
            all == text::views(prereqs@),
            forall|j: int|
                0 <= j < i ==> !text::views(failed@).contains((#[trigger] all[j]).name),
        decreases prereqs.len() - i,
    {
        assert(all[i as int] == prereqs@[i as int]@);
        if has_string(failed, prereqs[i].name.as_str()) {
            return true;
        }
        i = i + 1;
    }
    false
}

fn is_blocked(graph: &BuildGraph, target: &str, failed: &[String]) -> (r: bool)
    ensures
        r == blocked(graph@.at(target@), text::views(failed@)),
{
    let entry = graph.known(target);
    let all = entry.all_prereqs();
    any_failed(all.as_slice(), failed)
}

fn place_of(entry: &TargetEntry, target: &str) -> (r: Loc)
    ensures
        r@ == recipe_place(entry@, target@),
{
    match &entry.recipe_loc {
        Some(l) => l.dup(),
        None => Loc::new(target, 0),
    }
}

fn prereq_names(prereqs: &[Prereq]) -> (r: Vec<String>)
    ensures
        text::views(r@) == rules::names_of(text::views(prereqs@)),
{
    let mut list: Vec<String> = Vec::new();
    let mut i: usize = 0;
    while i < prereqs.len()
        invariant
            i <= prereqs@.len(),
            list@.len() == i,
            forall|n: int| 0 <= n < i ==> (#[trigger] list@[n])@ == prereqs@[n].name@,
        decreases prereqs.len() - i,
    {
        list.push(prereqs[i].name.dup());
        i = i + 1;
    }
    assert(text::views(list@) =~= rules::names_of(text::views(prereqs@)));
    list
}

/// A list of names.
struct Names(Vec<String>);

impl View for Names {
    type V = Seq<Seq<char>>;

    closed spec fn view(&self) -> Seq<Seq<char>> {
        text::views(self.0@)
    }
}

fn current_time(path: &str, t: &mut Transcript) -> (r: Result<Option<i128>, Stop>)
    ensures
        final(t).log() == old(t).log(),
        match time_now(path@, old(t).log(), old(t).at()) {
            Ok(p) => r == Ok::<Option<i128>, Stop>(p.0) && final(t).at() == p.1,
            Err(s) => r is Err && r->Err_0@ == s.0 && final(t).at() == s.1,
        },
{
    match t.ask(Query::ModTime(owned(path)))? {
        Answer::Time(n) => Ok(Some(n)),
        _ => Ok(None),
    }
}

fn find_newer(target: &str, list: &[String], t: &mut Transcript) -> (r: Result<Names, Stop>)
    ensures
        world::tells(
            r,
            *old(t),
            *final(t),
            newer_prereqs(target@, text::views(list@), old(t).log(), old(t).at()),
        ),
{
    broadcast use text::group_views;

    let tm = match current_time(target, t)? {
        None => {
            return Ok(Names(dup_all(list)));
        },
        Some(tm) => tm,
    };
    let ghost all = text::views(list@);
    let ghost want = newer_than(all, 0, tm, t.log(), t.at());
    let mut out: Vec<String> = Vec::new();
    let mut i: usize = 0;
    proof {
        world::lemma_after_nothing(want);
    }
    while i < list.len()
        invariant
            i <= list@.len(),
            all == text::views(list@),
            t.log() == old(t).log(),
            want == newer_prereqs(target@, text::views(list@), old(t).log(), old(t).at()),
            want == world::after(
                text::views(out@),
                newer_than(all, i as int, tm, t.log(), t.at()),
            ),
        decreases list.len() - i,
    {
        assert(all[i as int] == list@[i as int]@);
        let ghost before = text::views(out@);
        let pm = current_time(list[i].as_str(), t)?;
        let old_enough = match pm {
            Some(p) => p <= tm,
            None => false,
        };
        let ghost part: Seq<Seq<char>> = if old_enough {
            seq![]
        } else {
            seq![list@[i as int]@]
        };
        if !old_enough {
            out.push(list[i].dup());
        }
        proof {
            world::lemma_after_after(before, part, newer_than(all, i + 1, tm, t.log(), t.at()));
            assert(text::views(out@) =~= before + part);
        }
        i = i + 1;
    }
    proof {
        assert(text::views(out@) + Seq::<Seq<char>>::empty() =~= text::views(out@));
    }
    Ok(Names(out))
}

fn tell_circles(dropped: &[(String, String)], t: &mut Transcript) -> (r: Result<(), Stop>)
    ensures
        world::moves(
            r,
            *old(t),
            *final(t),
            (),
            circles_told(text::views(dropped@), 0, old(t).log(), old(t).at()),
        ),
{
    let ghost all = text::views(dropped@);
    let mut i: usize = 0;
    while i < dropped.len()
        invariant
            i <= dropped@.len(),
            all == text::views(dropped@),
            t.log() == old(t).log(),
            circles_told(all, 0, old(t).log(), old(t).at()) == circles_told(
                all,
                i as int,
                t.log(),
                t.at(),
            ),
        decreases dropped.len() - i,
    {
        assert(all[i as int] == (dropped@[i as int].0@, dropped@[i as int].1@));
        let mut line = chars_of("mk: Circular ");
        append_str(&mut line, dropped[i].0.as_str());
        append_str(&mut line, " <- ");
        append_str(&mut line, dropped[i].1.as_str());
        append_str(&mut line, " dependency dropped.");
        let _ = t.ask(Query::Warn(string_of(line.as_slice())))?;
        i = i + 1;
    }
    Ok(())
}

fn resolve_all(graph: &mut BuildGraph, order: &[String], t: &mut Transcript) -> (r: Result<
    (),
    Stop,
>)
    ensures
        world::moves(
            r,
            *old(t),
            *final(t),
            final(graph)@,
            all_resolved(
                old(graph)@,
                text::views(order@),
                0,
                old(t).log(),
                old(t).at(),
            ),
        ),
{
    let ghost all = text::views(order@);
    let ghost want = all_resolved(graph@, all, 0, t.log(), t.at());
    let mut i: usize = 0;
    while i < order.len()
        invariant
            i <= order@.len(),
            all == text::views(order@),
            t.log() == old(t).log(),
            want == all_resolved(
                old(graph)@,
                text::views(order@),
                0,
                old(t).log(),
                old(t).at(),
            ),
            want == all_resolved(graph@, all, i as int, t.log(), t.at()),
        decreases order.len() - i,
    {
        assert(all[i as int] == order@[i as int]@);
        let _ = graph.resolve_implicit(order[i].as_str(), t)?;
        i = i + 1;
    }
    Ok(())
}

fn unlisted_names(list: &[String], done: &[String]) -> (r: Vec<String>)
    ensures
        text::views(r@) == unlisted(
            text::views(list@),
            text::views(done@),
            list@.len() as int,
        ),
{
    let ghost all = text::views(list@);
    let ghost known = text::views(done@);
    let mut out: Vec<String> = Vec::new();
    let mut i: usize = 0;
    assert(text::views(out@) =~= seq![]);
    while i < list.len()
        invariant
            i <= list@.len(),
            all == text::views(list@),
            known == text::views(done@),
            text::views(out@) == unlisted(all, known, i as int),
        decreases list.len() - i,
    {
        assert(all[i as int] == list@[i as int]@);
        if !has_string(done, list[i].as_str()) {
            let ghost before = text::views(out@);
            out.push(list[i].dup());
            assert(text::views(out@) =~= before.push(all[i as int]));
        }
        i = i + 1;
    }
    out
}

fn plan(graph: &mut BuildGraph, goals: &[String], t: &mut Transcript) -> (r: Result<
    TopoOrder,
    Stop,
>)
    ensures
        final(t).log() == old(t).log(),
        match planned(
            old(graph)@,
            text::views(goals@),
            seq![],
            old(t).log(),
            old(t).at(),
        ) {
            Ok(p) => r is Ok && r->Ok_0@ == p.0.1 && final(graph)@ == p.0.0 && final(t).at()
                == p.1,
            Err(s) => r is Err && r->Err_0@ == s.0 && final(t).at() == s.1,
        },
{
    let ghost names = text::views(goals@);
    let ghost want = planned(graph@, names, seq![], t.log(), t.at());
    let mut done: Vec<String> = Vec::new();
    assert(text::views(done@) =~= seq![]);
    // No more answers have been used than there are
    let _ = t.used();
    loop
        invariant
            names == text::views(goals@),
            t.log() == old(t).log(),
            t.at() <= t.log().len(),
            want == planned(old(graph)@, names, seq![], old(t).log(), old(t).at()),
            want == planned(graph@, names, text::views(done@), t.log(), t.at()),
        decreases t.log().len() - t.at(),
    {
        let w = graph.topo_sort(goals);
        assert(w@.order.len() == w.order@.len());
        let mut fresh = unlisted_names(w.order.as_slice(), done.as_slice());
        let before = t.used();
        resolve_all(graph, fresh.as_slice(), t)?;
        if t.used() <= before {
            return Ok(graph.topo_sort(goals));
        }
        let ghost listed = text::views(done@);
        let ghost added = text::views(fresh@);
        done.append(&mut fresh);
        assert(text::views(done@) =~= listed + added);
    }
}

// ── What holds of building ──────────────────────────────────────────────────

/// The automatic variables of a target: `$@` is the target, `$<` the first normal
/// prerequisite, `$+` all of them, `$?` the newer ones, `$|` the order-only ones and
/// `$*` the stem.
pub proof fn lemma_auto(
    target: Seq<char>,
    normal: Seq<Seq<char>>,
    order_only: Seq<Seq<char>>,
    newer: Seq<Seq<char>>,
    stem: Seq<char>,
)
    ensures
        ({
            let a = auto_for(target, normal, order_only, newer, stem);
            &&& a.target == target
            &&& normal.len() > 0 ==> a.first_prereq == normal[0]
            &&& normal.len() == 0 ==> a.first_prereq == Seq::<char>::empty()
            &&& a.all_prereqs_dup == text::join(normal, " "@)
            &&& a.newer_prereqs == text::join(newer, " "@)
            &&& a.order_only == text::join(order_only, " "@)
            &&& a.stem == stem
        }),
{
}

/// `$^` names each normal prerequisite once, where it comes first: one more changes it
/// exactly where it has not come before, and is then put at the end.
pub proof fn lemma_auto_once(
    target: Seq<char>,
    normal: Seq<Seq<char>>,
    x: Seq<char>,
    order_only: Seq<Seq<char>>,
    newer: Seq<Seq<char>>,
    stem: Seq<char>,
)
    ensures
        ({
            let a = auto_for(target, normal, order_only, newer, stem).all_prereqs;
            let b = auto_for(target, normal.push(x), order_only, newer, stem).all_prereqs;
            &&& normal.len() == 0 ==> a == Seq::<char>::empty() && b == x
            &&& normal.contains(x) ==> b == a
            &&& !normal.contains(x) && normal.len() > 0 ==> b == a + seq![' '] + x
        }),
{
    let n = normal.len() as int;
    let more = normal.push(x);
    lemma_uniques_same(normal, more, n);
    lemma_uniques(normal, n);
    assert(normal.take(n) =~= normal);
    let u = uniques(normal, n);
    assert(uniques(more, n + 1) == (if u.contains(x) {
        u
    } else {
        u.push(x)
    }));
    reveal_strlit(" ");
    assert(" "@ =~= seq![' ']);
    text::lemma_join_last(u, x, " "@);
    if n == 0 {
        assert(u.len() == 0);
        assert(u.push(x) =~= seq![x]);
        assert(u =~= seq![]);
    } else {
        assert(normal.contains(normal[0]));
        assert(u.contains(normal[0]));
    }
}

proof fn lemma_uniques_same(a: Seq<Seq<char>>, b: Seq<Seq<char>>, n: int)
    requires
        0 <= n <= a.len(),
        n <= b.len(),
        forall|i: int| 0 <= i < n ==> a[i] == b[i],
    ensures
        uniques(a, n) == uniques(b, n),
    decreases n,
{
    if n > 0 {
        lemma_uniques_same(a, b, n - 1);
    }
}

/// The newer prerequisites are found one by one, each from the answer to its own
/// question: a prerequisite is newer where its file is missing or has a greater time.
pub proof fn lemma_newer(
    a: Seq<Seq<char>>,
    x: Seq<char>,
    tm: i128,
    log: Seq<AnswerView>,
    k: nat,
)
    ensures
        newer_than(seq![], 0, tm, log, k) == Ok::<(Seq<Seq<char>>, nat), (world::StopView, nat)>(
            (seq![], k),
        ),
        k + a.len() < log.len() ==> (newer_than(a, 0, tm, log, k) matches Ok(p) && p.1 == k + a.len()
            && newer_than(a.push(x), 0, tm, log, k) == Ok::<
            (Seq<Seq<char>>, nat),
            (world::StopView, nat),
        >(
            (
                if log[(k + a.len()) as int] matches AnswerView::Time(n) && n <= tm {
                    p.0
                } else {
                    p.0.push(x)
                },
                p.1 + 1,
            ),
        )),
        a.len() > 0 && k >= log.len() ==> newer_than(a, 0, tm, log, k) == Err::<
            (Seq<Seq<char>>, nat),
            (world::StopView, nat),
        >((world::StopView::Ask(QueryView::ModTime(a[0])), k)),
{
    if k + a.len() < log.len() {
        lemma_newer_from(a, x, 0, tm, log, k);
    }
}

proof fn lemma_newer_from(
    a: Seq<Seq<char>>,
    x: Seq<char>,
    i: int,
    tm: i128,
    log: Seq<AnswerView>,
    k: nat,
)
    requires
        0 <= i <= a.len(),
        k + a.len() - i < log.len(),
    ensures
        newer_than(a, i, tm, log, k) matches Ok(p) && p.1 == k + a.len() - i && newer_than(
            a.push(x),
            i,
            tm,
            log,
            k,
        ) == Ok::<(Seq<Seq<char>>, nat), (world::StopView, nat)>(
            (
                if log[k + a.len() - i] matches AnswerView::Time(n) && n <= tm {
                    p.0
                } else {
                    p.0.push(x)
                },
                p.1 + 1,
            ),
        ),
    decreases a.len() - i,
{
    let b = a.push(x);
    if i < a.len() {
        lemma_newer_from(a, x, i + 1, tm, log, k + 1);
        let p = newer_than(a, i + 1, tm, log, k + 1)->Ok_0;
        let head: Seq<Seq<char>> = match log[k as int] {
            AnswerView::Time(n) if n <= tm => seq![],
            _ => seq![a[i]],
        };
        assert(b[i] == a[i]);
        assert(head + p.0.push(x) =~= (head + p.0).push(x));
    } else {
        assert(b[i] == x);
        reveal_with_fuel(newer_than, 2);
        let head: Seq<Seq<char>> = match log[k as int] {
            AnswerView::Time(n) if n <= tm => seq![],
            _ => seq![x],
        };
        assert(head + Seq::<Seq<char>>::empty() =~= head);
        assert(Seq::<Seq<char>>::empty().push(x) =~= seq![x]);
    }
}

/// Where the file of a target is missing, all its prerequisites are newer; otherwise they
/// are compared with its time.
pub proof fn lemma_newer_prereqs(
    target: Seq<char>,
    list: Seq<Seq<char>>,
    log: Seq<AnswerView>,
    k: nat,
)
    ensures
        k >= log.len() ==> newer_prereqs(target, list, log, k) == Err::<
            (Seq<Seq<char>>, nat),
            (world::StopView, nat),
        >((world::StopView::Ask(QueryView::ModTime(target)), k)),
        k < log.len() ==> match log[k as int] {
            AnswerView::Time(tm) => newer_prereqs(target, list, log, k) == newer_than(
                list,
                0,
                tm,
                log,
                k + 1,
            ),
            _ => newer_prereqs(target, list, log, k) == Ok::<
                (Seq<Seq<char>>, nat),
                (world::StopView, nat),
            >((list, k + 1)),
        },
{
}

/// A command is shown first, unless it or the run is silent, and then run, unless the run
/// only shows and the line is not marked with `+`: by the shell, as it stands, with
/// what is exported. What follows depends on how it ended.
pub proof fn lemma_command(
    x: ExecView,
    line: RecipeLineView,
    cmd: Seq<char>,
    target: Seq<char>,
    loc: LocView,
    log: Seq<AnswerView>,
    k: nat,
    shell: Seq<char>,
)
    requires
        x.vars.vars.dom().finite(),
        x.vars.vars.dom().contains("SHELL"@) && x.vars.vars["SHELL"@].raw == shell,
        shell.len() > 0,
        forall|i: int| 0 <= i < shell.len() ==> #[trigger] shell[i] != '$',
    ensures
        ({
            let quiet = line.silent || x.args.silent;
            let at: nat = if quiet {
                k
            } else {
                k + 1
            };
            let held = x.args.dry_run && !line.always_run;
            let done = command_run(x, line, cmd, target, loc, log, k);
            &&& !quiet && k >= log.len() ==> done == Err::<((), nat), (world::StopView, nat)>(
                (world::StopView::Ask(QueryView::Print(cmd)), k),
            )
            &&& (quiet || k < log.len()) && held ==> done == Ok::<((), nat), (world::StopView, nat)>(
                ((), at),
            )
            &&& (quiet || k < log.len()) && !held && at >= log.len() ==> (done matches Err(e)
                && e.1 == at && (e.0 matches world::StopView::Ask(q) && (q matches QueryView::Run {
                shell: sh,
                command,
                exports,
            } && sh == shell && command == cmd && exports == exports_of(x))))
            &&& (quiet || k < log.len()) && !held && at < log.len() ==> done == judged(
                log[at as int],
                line.ignore_error || x.args.ignore_errors,
                target,
                loc,
                log,
                at + 1,
            )
        }),
{
    let at: nat = if line.silent || x.args.silent {
        k
    } else {
        k + 1
    };
    expand::lemma_value("SHELL"@, x.vars, None, loc, false, log, at);
}

/// Without a `SHELL`, commands are run by `/bin/sh`.
pub proof fn lemma_shell(vars: VarTableView, loc: LocView, log: Seq<AnswerView>, k: nat)
    requires
        !vars.vars.dom().contains("SHELL"@),
        vars.vars.dom().finite(),
    ensures
        shell_of(vars, loc, log, k) == Ok::<(Seq<char>, nat), (world::StopView, nat)>(
            ("/bin/sh"@, k),
        ),
{
    expand::lemma_value("SHELL"@, vars, None, loc, false, log, k);
}

/// A command that ends with status 0 is no failure. One that ends with another, or that
/// was killed, is reported and then fails with that status, 1 where it was killed;
/// where errors are ignored, only a warning is reported. One that could not be run
/// fails with the reason, or not at all where errors are ignored.
pub proof fn lemma_judged(
    status: Option<i32>,
    why: Seq<char>,
    target: Seq<char>,
    loc: LocView,
    log: Seq<AnswerView>,
    k: nat,
)
    requires
        status != Some(0i32),
        k < log.len(),
    ensures
        ({
            let code: i32 = match status {
                Some(c) => c,
                None => 1,
            };
            let end = AnswerView::Exit(status);
            &&& judged(AnswerView::Exit(Some(0i32)), false, target, loc, log, k) == Ok::<
                ((), nat),
                (world::StopView, nat),
            >(((), k))
            &&& judged(end, true, target, loc, log, k) == Ok::<((), nat), (world::StopView, nat)>(
                ((), k + 1),
            )
            &&& judged(end, false, target, loc, log, k) == Err::<((), nat), (world::StopView, nat)>(
                (
                    world::StopView::Failed(
                        ErrorView::FatalAt(
                            loc,
                            "["@ + target + "] Error "@ + number::decimal_int(code as int),
                        ),
                    ),
                    k + 1,
                ),
            )
            &&& judged(end, false, target, loc, seq![], 0) == Err::<
                ((), nat),
                (world::StopView, nat),
            >(
                (
                    world::StopView::Ask(
                        QueryView::Report(
                            ErrorView::RecipeError { loc, target, code: code as int },
                        ),
                    ),
                    0,
                ),
            )
            &&& judged(end, true, target, loc, seq![], 0) == Err::<
                ((), nat),
                (world::StopView, nat),
            >(
                (
                    world::StopView::Ask(
                        QueryView::Report(
                            ErrorView::Warning(
                                loc,
                                "ignoring errors from recipe for '"@ + target + "'"@,
                            ),
                        ),
                    ),
                    0,
                ),
            )
            &&& judged(AnswerView::Failed(why), true, target, loc, log, k) == Ok::<
                ((), nat),
                (world::StopView, nat),
            >(((), k))
            &&& judged(AnswerView::Failed(why), false, target, loc, log, k) == Err::<
                ((), nat),
                (world::StopView, nat),
            >(
                (
                    world::StopView::Failed(
                        ErrorView::FatalAt(
                            loc,
                            "recipe for target '"@ + target + "' failed: "@ + why,
                        ),
                    ),
                    k,
                ),
            )
        }),
{
}

/// Whether the lines of a recipe from position `i` on were run, one after the other, and
/// none failed; the answers for each begin where `at` says.
pub open spec fn runs_each(
    x: ExecView,
    recipe: Seq<RecipeLineView>,
    i: int,
    auto: AutoView,
    target: Seq<char>,
    loc: LocView,
    log: Seq<AnswerView>,
    at: Seq<nat>,
) -> bool {
    &&& at.len() == recipe.len() - i + 1
    &&& forall|n: int|
        i <= n < recipe.len() ==> runs_line(
            x,
            #[trigger] recipe[n],
            auto,
            target,
            loc,
            log,
            at[n - i],
            at[n - i + 1],
        )
}

/// Whether a line of a recipe was run with the answers from `a` up to `b`, and did not fail.
pub open spec fn runs_line(
    x: ExecView,
    line: RecipeLineView,
    auto: AutoView,
    target: Seq<char>,
    loc: LocView,
    log: Seq<AnswerView>,
    a: nat,
    b: nat,
) -> bool {
    match expand::expansion(line.text, x.vars, Some(auto), loc, false, log, a) {
        Ok(p) => command_run(x, line, own_path(p.0, x.program), target, loc, log, p.1) == Ok::<
            ((), nat),
            (world::StopView, nat),
        >(((), b)),
        Err(e) => false,
    }
}

/// A recipe succeeds exactly where each of its lines was run, in order, and none failed;
/// it fails where all lines before one succeeded and that one did not.
pub proof fn lemma_recipe(
    x: ExecView,
    recipe: Seq<RecipeLineView>,
    i: int,
    auto: AutoView,
    target: Seq<char>,
    loc: LocView,
    log: Seq<AnswerView>,
    k: nat,
)
    requires
        0 <= i <= recipe.len(),
    ensures
        match recipe_run(x, recipe, i, auto, target, loc, log, k) {
            Ok(p) => exists|at: Seq<nat>| #[trigger]
                runs_each(x, recipe, i, auto, target, loc, log, at) && at[0] == k && at.last()
                    == p.1,
            Err(e) => exists|n: int, at: Seq<nat>|
                i <= n < recipe.len() && #[trigger] runs_each(
                    x,
                    recipe.take(n),
                    i,
                    auto,
                    target,
                    loc,
                    log,
                    at,
                ) && at[0] == k && !(exists|b: nat|
                    runs_line(x, recipe[n], auto, target, loc, log, at.last(), b)),
        },
    decreases recipe.len() - i,
{
    if i < recipe.len() {
        let s = recipe[i].text;
        let none = recipe.take(i);
        let start = seq![k];
        assert(runs_each(x, none, i, auto, target, loc, log, start));
        assert(start.last() == k);
        if let Ok(p) = expand::expansion(s, x.vars, Some(auto), loc, false, log, k) {
            let cmd = own_path(p.0, x.program);
            if let Ok(q) = command_run(x, recipe[i], cmd, target, loc, log, p.1) {
                assert(runs_line(x, recipe[i], auto, target, loc, log, k, q.1));
                lemma_recipe(x, recipe, i + 1, auto, target, loc, log, q.1);
                match recipe_run(x, recipe, i + 1, auto, target, loc, log, q.1) {
                    Ok(r) => {
                        let rest = choose|at: Seq<nat>| #[trigger]
                            runs_each(x, recipe, i + 1, auto, target, loc, log, at) && at[0]
                                == q.1 && at.last() == r.1;
                        let at = start + rest;
                        lemma_runs_more(x, recipe, i, auto, target, loc, log, k, rest);
                        assert(at.last() == rest.last());
                    },
                    Err(e) => {
                        let (n, rest) = choose|n: int, at: Seq<nat>|
                            i + 1 <= n < recipe.len() && #[trigger] runs_each(
                                x,
                                recipe.take(n),
                                i + 1,
                                auto,
                                target,
                                loc,
                                log,
                                at,
                            ) && at[0] == q.1 && !(exists|b: nat|
                                runs_line(x, recipe[n], auto, target, loc, log, at.last(), b));
                        let at = start + rest;
                        assert(recipe.take(n)[i] == recipe[i]);
                        lemma_runs_more(x, recipe.take(n), i, auto, target, loc, log, k, rest);
                        assert(at.last() == rest.last());
                        assert(runs_each(x, recipe.take(n), i, auto, target, loc, log, at));
                    },
                }
            } else {
                assert(!(exists|b: nat|
                    runs_line(x, recipe[i], auto, target, loc, log, start.last(), b)));
            }
        } else {
            assert(!(exists|b: nat|
                runs_line(x, recipe[i], auto, target, loc, log, start.last(), b)));
        }
    } else {
        let at = seq![k];
        assert(runs_each(x, recipe, i, auto, target, loc, log, at));
        assert(at.last() == k);
    }
}

proof fn lemma_runs_more(
    x: ExecView,
    recipe: Seq<RecipeLineView>,
    i: int,
    auto: AutoView,
    target: Seq<char>,
    loc: LocView,
    log: Seq<AnswerView>,
    k: nat,
    rest: Seq<nat>,
)
    requires
        0 <= i < recipe.len(),
        runs_each(x, recipe, i + 1, auto, target, loc, log, rest),
        runs_line(x, recipe[i], auto, target, loc, log, k, rest[0]),
    ensures
        runs_each(x, recipe, i, auto, target, loc, log, seq![k] + rest),
{
    let at = seq![k] + rest;
    assert forall|n: int| i <= n < recipe.len() implies runs_line(
        x,
        #[trigger] recipe[n],
        auto,
        target,
        loc,
        log,
        at[n - i],
        at[n - i + 1],
    ) by {
        if n > i {
            assert(at[n - i] == rest[n - (i + 1)]);
            assert(at[n - i + 1] == rest[n - (i + 1) + 1]);
        } else {
            assert(at[1] == rest[0]);
        }
    }
}

/// What is done for a stale target: its double-colon rules are run, or its recipe; with
/// rules but no recipe there is nothing to do; and where no rule is about it, `.DEFAULT`
/// is run, or the file has to exist.
pub proof fn lemma_rebuilt(
    x: ExecView,
    g: GraphView,
    target: Seq<char>,
    log: Seq<AnswerView>,
    k: nat,
)
    requires
        !x.args.touch,
        !x.args.question,
    ensures
        ({
            let e = g.at(target);
            let done = rebuilt(x, g, target, log, k);
            &&& e.dc_rules.len() > 0 ==> done == double_run(
                x,
                e.dc_rules,
                0,
                None,
                target,
                log,
                k,
            )
            &&& e.dc_rules.len() == 0 && e.recipe.len() > 0 ==> done == single_run(
                x,
                e,
                target,
                log,
                k,
            )
            &&& e.dc_rules.len() == 0 && e.recipe.len() == 0 && (e.loc is Some || e.prereqs.len() > 0
                || e.implicit_rule is Some) ==> done == Ok::<
                (BuildResultView, nat),
                (world::StopView, nat),
            >((BuildResultView::UpToDate, k))
            &&& e.dc_rules.len() == 0 && e.recipe.len() == 0 && e.loc is None && e.prereqs.len() == 0
                && e.implicit_rule is None && g.default_recipe is None && k < log.len() ==> done
                == Ok::<(BuildResultView, nat), (world::StopView, nat)>(
                (
                    if log[k as int] == AnswerView::Flag(true) {
                        BuildResultView::UpToDate
                    } else {
                        BuildResultView::Failed(
                            ErrorView::Fatal("No rule to make target '"@ + target + "'"@),
                        )
                    },
                    k + 1,
                ),
            )
        }),
{
}

/// Under `-t` a stale target with a recipe is touched where it exists and created where it
/// does not; under `-q` alone it is found out of date, and nothing is asked.
pub proof fn lemma_touched(x: ExecView, target: Seq<char>, log: Seq<AnswerView>, k: nat)
    ensures
        ({
            let at: nat = if x.args.silent {
                k
            } else {
                k + 1
            };
            let done = touched(x, target, log, k);
            &&& !x.args.silent && k >= log.len() ==> done == Err::<
                (BuildResultView, nat),
                (world::StopView, nat),
            >((world::StopView::Ask(QueryView::Print("touch "@ + target)), k))
            &&& (x.args.silent || k < log.len()) && x.args.dry_run ==> done == Ok::<
                (BuildResultView, nat),
                (world::StopView, nat),
            >((BuildResultView::Built, at))
            &&& (x.args.silent || k < log.len()) && !x.args.dry_run && at + 1 == log.len() ==> done
                == Err::<(BuildResultView, nat), (world::StopView, nat)>(
                (
                    world::StopView::Ask(
                        if log[at as int] == AnswerView::Flag(true) {
                            QueryView::Touch(target)
                        } else {
                            QueryView::Create(target)
                        },
                    ),
                    at + 1,
                ),
            )
            &&& at + 1 < log.len() && !x.args.dry_run ==> done == Ok::<
                (BuildResultView, nat),
                (world::StopView, nat),
            >((BuildResultView::Built, at + 2))
        }),
{
}

/// A target is rebuilt exactly where it is stale. Where it was built, its time is
/// forgotten, so that what depends on it is compared with its new time; nothing else in
/// the graph changes but times that were found.
pub proof fn lemma_built(
    x: ExecView,
    g: GraphView,
    target: Seq<char>,
    other: Seq<char>,
    log: Seq<AnswerView>,
    k: nat,
)
    requires
        other != target,
    ensures
        match graph::stale(g, target, log, k) {
            Err(s) => built(x, g, target, log, k) == Err::<
                ((BuildResultView, GraphView), nat),
                (world::StopView, nat),
            >(s),
            Ok(p) => {
                let h = p.0.1;
                &&& !p.0.0 ==> built(x, g, target, log, k) == Ok::<
                    ((BuildResultView, GraphView), nat),
                    (world::StopView, nat),
                >(((BuildResultView::UpToDate, h), p.1))
                &&& p.0.0 ==> match rebuilt(x, h, target, log, p.1) {
                    Err(s) => built(x, g, target, log, k) == Err::<
                        ((BuildResultView, GraphView), nat),
                        (world::StopView, nat),
                    >(s),
                    Ok(q) => built(x, g, target, log, k) matches Ok(r) && r.0.0 == q.0 && r.1 == q.1
                        && r.0.1.at(other) == h.at(other) && (q.0 is Built ==> r.0.1.at(
                        target,
                    ).mtime is None) && (!(q.0 is Built) ==> r.0.1 == h) && r.0.1.at(target) == (
                    EntryView { mtime: r.0.1.at(target).mtime, ..h.at(target) }),
                }
            },
        },
{
}

/// What became of a target in a build.
pub enum Fate {
    /// It was built, or was up to date.
    Fine,
    /// It was found out of date.
    Outdated,
    /// Its recipe failed.
    Broken,
    /// Something that it depends on has failed.
    Blocked,
}

/// Whether a fate counts as a failure.
pub open spec fn is_bad(f: Fate) -> bool {
    f is Broken || f is Blocked
}

/// A build of some targets: what became of each, the graph before each and after the last,
/// and where the answers for each begin.
pub struct Course {
    pub fates: Seq<Fate>,
    pub graphs: Seq<GraphView>,
    pub at: Seq<nat>,
}

/// Whether one of the first `n` targets of a build is `name`, and failed.
pub open spec fn fell(order: Seq<Seq<char>>, fates: Seq<Fate>, n: int, name: Seq<char>) -> bool {
    exists|i: int| 0 <= i < n && i < fates.len() && #[trigger] order[i] == name && is_bad(fates[i])
}

/// Whether a course is what the answers say: a target is blocked exactly where one that it
/// depends on has failed before, and is then left alone; every other one is built, and
/// its fate is what came of that.
pub open spec fn follows(
    x: ExecView,
    order: Seq<Seq<char>>,
    c: Course,
    log: Seq<AnswerView>,
) -> bool {
    &&& c.graphs.len() == c.fates.len() + 1
    &&& c.at.len() == c.fates.len() + 1
    &&& c.fates.len() <= order.len()
    &&& forall|n: int|
        0 <= n < c.fates.len() ==> follows_at(x, order, c, #[trigger] order[n], n, log)
}

/// Whether a course is what the answers say, for the target at position `n`.
pub open spec fn follows_at(
    x: ExecView,
    order: Seq<Seq<char>>,
    c: Course,
    target: Seq<char>,
    n: int,
    log: Seq<AnswerView>,
) -> bool {
    if exists|y: Seq<char>| #[trigger]
        graph::depends(c.graphs[n].at(target), y) && fell(order, c.fates, n, y) {
        c.fates[n] is Blocked && c.graphs[n + 1] == c.graphs[n] && c.at[n + 1] == c.at[n]
    } else {
        match built(x, c.graphs[n], target, log, c.at[n]) {
            Err(s) => false,
            Ok(p) => {
                &&& c.graphs[n + 1] == p.0.1
                &&& match p.0.0 {
                    BuildResultView::Failed(e) => c.fates[n] is Broken && c.at[n + 1] == p.1 + 1,
                    BuildResultView::OutOfDate => c.fates[n] is Outdated && c.at[n + 1] == p.1,
                    _ => c.fates[n] is Fine && c.at[n + 1] == p.1,
                }
            },
        }
    }
}

/// How many of the first `n` fates are failures.
pub open spec fn bad_count(fates: Seq<Fate>, n: int) -> nat
    decreases n,
{
    if n <= 0 {
        0
    } else {
        bad_count(fates, n - 1) + (if is_bad(fates[n - 1]) {
            1nat
        } else {
            0
        })
    }
}

/// Every target is dealt with in its turn: each is built, unless one that it depends on
/// has failed. The failures are counted, and the build ends before the last target only
/// where one was bad and the work is not to go on.
pub proof fn lemma_course(
    x: ExecView,
    g: GraphView,
    order: Seq<Seq<char>>,
    log: Seq<AnswerView>,
    k: nat,
)
    requires
        order.no_duplicates(),
    ensures
        all_built(x, g, order, 0, seq![], false, log, k) matches Ok(p) ==> exists|c: Course| #[trigger]
            follows(x, order, c, log) && c.graphs[0] == g && c.graphs.last() == p.0.1 && c.at[0] == k
                && c.at.last() == p.1 && p.0.0.0 == bad_count(c.fates, c.fates.len() as int)
                && p.0.0.1 == (exists|i: int|
                0 <= i < c.fates.len() && (#[trigger] c.fates[i]) is Outdated) && (c.fates.len()
                < order.len() ==> !x.args.keep_going && c.fates.len() > 0 && !(
            c.fates.last() is Fine)),
{
    let c = Course { fates: seq![], graphs: seq![g], at: seq![k] };
    assert(follows(x, order, c, log));
    lemma_course_from(x, order, c, seq![], false, log);
}

/// Whether a list of failed targets is that of a course.
spec fn tallied(order: Seq<Seq<char>>, c: Course, failed: Seq<Seq<char>>, outdated: bool) -> bool {
    &&& failed.len() == bad_count(c.fates, c.fates.len() as int)
    &&& forall|y: Seq<char>| #[trigger]
        failed.contains(y) <==> fell(order, c.fates, c.fates.len() as int, y)
    &&& outdated == (exists|i: int| 0 <= i < c.fates.len() && (#[trigger] c.fates[i]) is Outdated)
}

proof fn lemma_course_from(
    x: ExecView,
    order: Seq<Seq<char>>,
    c: Course,
    failed: Seq<Seq<char>>,
    outdated: bool,
    log: Seq<AnswerView>,
)
    requires
        order.no_duplicates(),
        follows(x, order, c, log),
        tallied(order, c, failed, outdated),
    ensures
        all_built(
            x,
            c.graphs.last(),
            order,
            c.fates.len() as int,
            failed,
            outdated,
            log,
            c.at.last(),
        ) matches Ok(p) ==> exists|d: Course| #[trigger]
            follows(x, order, d, log) && d.graphs[0] == c.graphs[0] && d.graphs.last() == p.0.1
                && d.at[0] == c.at[0] && d.at.last() == p.1 && p.0.0.0 == bad_count(
                d.fates,
                d.fates.len() as int,
            ) && p.0.0.1 == (exists|i: int|
                0 <= i < d.fates.len() && (#[trigger] d.fates[i]) is Outdated) && (d.fates.len()
                < order.len() ==> !x.args.keep_going && d.fates.len() > 0 && !(
            d.fates.last() is Fine)),
    decreases order.len() - c.fates.len(),
{
    let n = c.fates.len() as int;
    if n < order.len() {
        let g = c.graphs.last();
        let k = c.at.last();
        let target = order[n];
        let e = g.at(target);
        lemma_blocked_exactly(e, failed);
        let stuck = exists|y: Seq<char>| #[trigger]
            graph::depends(e, y) && fell(order, c.fates, n, y);
        assert(stuck == blocked(e, failed));
        if stuck {
            let d = extended(c, Fate::Blocked, g, k);
            lemma_extended(x, order, c, Fate::Blocked, g, k, failed, outdated, log);
            lemma_course_from(x, order, d, failed.push(target), outdated, log);
        } else if let Ok(p) = built(x, g, target, log, k) {
            let h = p.0.1;
            match p.0.0 {
                BuildResultView::Failed(err) => {
                    if p.1 < log.len() {
                        let d = extended(c, Fate::Broken, h, p.1 + 1);
                        lemma_extended(
                            x,
                            order,
                            c,
                            Fate::Broken,
                            h,
                            p.1 + 1,
                            failed,
                            outdated,
                            log,
                        );
                        if x.args.keep_going {
                            let more = failed.push(target);
                            lemma_course_from(x, order, d, more, outdated, log);
                        }
                    }
                },
                BuildResultView::OutOfDate => {
                    let d = extended(c, Fate::Outdated, h, p.1);
                    lemma_extended(x, order, c, Fate::Outdated, h, p.1, failed, outdated, log);
                    if x.args.keep_going {
                        lemma_course_from(x, order, d, failed, true, log);
                    }
                },
                _ => {
                    let d = extended(c, Fate::Fine, h, p.1);
                    lemma_extended(x, order, c, Fate::Fine, h, p.1, failed, outdated, log);
                    lemma_course_from(x, order, d, failed, outdated, log);
                },
            }
        }
    }
}

spec fn extended(c: Course, f: Fate, g: GraphView, k: nat) -> Course {
    Course { fates: c.fates.push(f), graphs: c.graphs.push(g), at: c.at.push(k) }
}

proof fn lemma_extended(
    x: ExecView,
    order: Seq<Seq<char>>,
    c: Course,
    f: Fate,
    g: GraphView,
    k: nat,
    failed: Seq<Seq<char>>,
    outdated: bool,
    log: Seq<AnswerView>,
)
    requires
        order.no_duplicates(),
        follows(x, order, c, log),
        tallied(order, c, failed, outdated),
        c.fates.len() < order.len(),
        follows_at(
            x,
            order,
            extended(c, f, g, k),
            order[c.fates.len() as int],
            c.fates.len() as int,
            log,
        ) || ({
            let n = c.fates.len() as int;
            let target = order[n];
            let stuck = exists|y: Seq<char>| #[trigger]
                graph::depends(c.graphs.last().at(target), y) && fell(order, c.fates, n, y);
            &&& stuck ==> f is Blocked && g == c.graphs.last() && k == c.at.last()
            &&& !stuck ==> (built(x, c.graphs.last(), target, log, c.at.last()) matches Ok(p) && g
                == p.0.1 && match p.0.0 {
                BuildResultView::Failed(e) => f is Broken && k == p.1 + 1,
                BuildResultView::OutOfDate => f is Outdated && k == p.1,
                _ => f is Fine && k == p.1,
            })
        }),
    ensures
        follows(x, order, extended(c, f, g, k), log),
        tallied(
            order,
            extended(c, f, g, k),
            if is_bad(f) {
                failed.push(order[c.fates.len() as int])
            } else {
                failed
            },
            outdated || f is Outdated,
        ),
        extended(c, f, g, k).graphs[0] == c.graphs[0],
        extended(c, f, g, k).at[0] == c.at[0],
{
    let d = extended(c, f, g, k);
    let n = c.fates.len() as int;
    let target = order[n];
    assert forall|m: int, y: Seq<char>| 0 <= m <= n implies (#[trigger] fell(order, d.fates, m, y)
        == fell(order, c.fates, m, y)) by {
        if fell(order, c.fates, m, y) {
            let i = choose|i: int|
                0 <= i < m && i < c.fates.len() && #[trigger] order[i] == y && is_bad(c.fates[i]);
            assert(d.fates[i] == c.fates[i]);
            assert(order[i] == y);
        }
        if fell(order, d.fates, m, y) {
            let i = choose|i: int|
                0 <= i < m && i < d.fates.len() && #[trigger] order[i] == y && is_bad(d.fates[i]);
            assert(d.fates[i] == c.fates[i]);
            assert(order[i] == y);
        }
    }
    assert forall|m: int| 0 <= m < d.fates.len() implies follows_at(
        x,
        order,
        d,
        #[trigger] order[m],
        m,
        log,
    ) by {
        assert(d.graphs[m] == c.graphs[m] && d.at[m] == c.at[m]);
        if m < n {
            assert(follows_at(x, order, c, order[m], m, log));
            assert(d.graphs[m + 1] == c.graphs[m + 1] && d.at[m + 1] == c.at[m + 1]);
            assert(d.fates[m] == c.fates[m]);
            assert forall|y: Seq<char>| #[trigger]
                fell(order, d.fates, m, y) == fell(order, c.fates, m, y) by {}
        } else {
            assert forall|y: Seq<char>| #[trigger]
                fell(order, d.fates, n, y) == fell(order, c.fates, n, y) by {}
        }
    }
    let now = if is_bad(f) {
        failed.push(target)
    } else {
        failed
    };
    lemma_bad_count_same(c.fates, d.fates, n);
    text::lemma_push_contains(failed, target);
    assert forall|y: Seq<char>| #[trigger] now.contains(y) <==> fell(
        order,
        d.fates,
        n + 1,
        y,
    ) by {
        assert(failed.contains(y) <==> fell(order, c.fates, n, y));
        if fell(order, c.fates, n, y) {
            let i = choose|i: int|
                0 <= i < n && i < c.fates.len() && #[trigger] order[i] == y && is_bad(c.fates[i]);
            assert(order[i] == y && is_bad(d.fates[i]));
        }
        if is_bad(f) && y == target {
            assert(order[n] == y && is_bad(d.fates[n]));
        }
        if fell(order, d.fates, n + 1, y) {
            let i = choose|i: int|
                0 <= i < n + 1 && i < d.fates.len() && #[trigger] order[i] == y && is_bad(
                    d.fates[i],
                );
            if i < n {
                assert(order[i] == y && is_bad(c.fates[i]));
            }
        }
    }
    if outdated {
        let i = choose|i: int| 0 <= i < c.fates.len() && (#[trigger] c.fates[i]) is Outdated;
        assert(d.fates[i] is Outdated);
    }
    if f is Outdated {
        assert(d.fates[n] is Outdated);
    }
    if exists|i: int| 0 <= i < d.fates.len() && (#[trigger] d.fates[i]) is Outdated {
        let i = choose|i: int| 0 <= i < d.fates.len() && (#[trigger] d.fates[i]) is Outdated;
        if i < n {
            assert(c.fates[i] is Outdated);
        }
    }
}

proof fn lemma_bad_count_same(a: Seq<Fate>, b: Seq<Fate>, n: int)
    requires
        0 <= n <= a.len(),
        n <= b.len(),
        forall|i: int| 0 <= i < n ==> a[i] == b[i],
    ensures
        bad_count(a, n) == bad_count(b, n),
    decreases n,
{
    if n > 0 {
        lemma_bad_count_same(a, b, n - 1);
    }
}

proof fn lemma_blocked_exactly(e: EntryView, failed: Seq<Seq<char>>)
    ensures
        blocked(e, failed) <==> exists|y: Seq<char>| #[trigger]
            graph::depends(e, y) && failed.contains(y),
{
    let all = graph::all_prereqs(e);
    if blocked(e, failed) {
        let j = choose|j: int|
            0 <= j < all.len() && failed.contains((#[trigger] all[j]).name);
        graph::lemma_depends(e, all[j].name);
        assert(graph::depends(e, all[j].name));
    }
    if exists|y: Seq<char>| #[trigger] graph::depends(e, y) && failed.contains(y) {
        let y = choose|y: Seq<char>| #[trigger] graph::depends(e, y) && failed.contains(y);
        graph::lemma_depends(e, y);
        let j = choose|j: int| 0 <= j < all.len() && (#[trigger] all[j]).name == y;
        assert(failed.contains(all[j].name));
    }
}

/// Commands find in their environment what is exported, and their own level of nesting.
pub proof fn lemma_exports(x: ExecView, name: Seq<char>)
    requires
        name != "MAKELEVEL"@,
    ensures
        exports_of(x).dom().contains("MAKELEVEL"@),
        exports_of(x)["MAKELEVEL"@] == number::decimal(x.makelevel + 1),
        exports_of(x).dom().contains(name) <==> {
            let v = x.vars.vars[name];
            &&& x.vars.vars.dom().contains(name)
            &&& v.exported == Some(true) || (v.exported is None && x.vars.export_all && !(
            v.origin is Default))
        },
        exports_of(x).dom().contains(name) ==> exports_of(x)[name] == x.vars.vars[name].raw,
{
}

/// Replacing goes past a text that holds no `$`, where what is looked for begins with one.
proof fn lemma_past(p: Seq<char>, rest: Seq<char>, find: Seq<char>, to: Seq<char>)
    requires
        find.len() > 0,
        forall|j: int| 0 <= j < p.len() ==> !#[trigger] search::stands_at(p + rest, find, j),
    ensures
        search::replaced(p + rest, 0, find, to) == p + search::replaced(rest, 0, find, to),
{
    let s = p + rest;
    let n = p.len() as int;
    functions::lemma_replaced_before(s, 0, n, find, to);
    assert(s.subrange(0, n) =~= p);
    assert(s.skip(n) =~= rest);
    functions::lemma_replaced_shift(s, rest, n, 0, find, to);
}

proof fn lemma_no_sign(p: Seq<char>, rest: Seq<char>, find: Seq<char>)
    requires
        find.len() > 0,
        find[0] == '$',
        forall|i: int| 0 <= i < p.len() ==> #[trigger] p[i] != '$',
    ensures
        forall|j: int| 0 <= j < p.len() ==> !#[trigger] search::stands_at(p + rest, find, j),
{
    let s = p + rest;
    assert forall|j: int| 0 <= j < p.len() implies !#[trigger] search::stands_at(s, find, j) by {
        if search::stands_at(s, find, j) {
            assert(s.subrange(j, j + find.len())[0] == s[j]);
            assert(s[j] == p[j]);
        }
    }
}

/// A command has the program's path in the place of every `$(MAKE)` and `${MAKE}`, and is
/// otherwise as it was written.
pub proof fn lemma_own_path(a: Seq<char>, rest: Seq<char>, program: Seq<char>)
    requires
        forall|i: int| 0 <= i < a.len() ==> #[trigger] a[i] != '$',
        forall|i: int| 0 <= i < program.len() ==> #[trigger] program[i] != '$',
    ensures
        own_path(a, program) == a,
        own_path(a + seq!['$', '(', 'M', 'A', 'K', 'E', ')'] + rest, program) == a + program
            + own_path(rest, program),
        own_path(a + seq!['$', '{', 'M', 'A', 'K', 'E', '}'] + rest, program) == a + program
            + own_path(rest, program),
{
    reveal_strlit("$(MAKE)");
    reveal_strlit("${MAKE}");
    let f = seq!['$', '(', 'M', 'A', 'K', 'E', ')'];
    let h = seq!['$', '{', 'M', 'A', 'K', 'E', '}'];
    assert("$(MAKE)"@ =~= f);
    assert("${MAKE}"@ =~= h);
    let none = Seq::<char>::empty();
    assert(a + none =~= a);
    lemma_no_sign(a, none, f);
    lemma_past(a, none, f, program);
    lemma_no_sign(a, none, h);
    lemma_past(a, none, h, program);
    let done = search::replaced(rest, 0, f, program);
    lemma_first_replaced(a, rest, f, program);
    let p = a + program;
    assert forall|i: int| 0 <= i < p.len() implies #[trigger] p[i] != '$' by {
        if i >= a.len() {
            assert(p[i] == program[i - a.len()]);
        }
    }
    lemma_no_sign(p, done, h);
    lemma_past(p, done, h, program);
    let q = a + h;
    lemma_no_sign(a, h + rest, f);
    assert(a + (h + rest) =~= q + rest);
    assert forall|j: int| 0 <= j < q.len() implies !#[trigger] search::stands_at(q + rest, f, j) by {
        if search::stands_at(q + rest, f, j) {
            assert((q + rest).subrange(j, j + 7)[0] == (q + rest)[j]);
            assert((q + rest).subrange(j, j + 7)[1] == (q + rest)[j + 1]);
            assert(j >= a.len());
            assert((q + rest)[j] == h[j - a.len()]);
            assert(j == a.len());
            assert((q + rest)[j + 1] == h[1]);
        }
    }
    lemma_past(q, rest, f, program);
    lemma_first_replaced(a, done, h, program);
}

proof fn lemma_first_replaced(a: Seq<char>, rest: Seq<char>, find: Seq<char>, to: Seq<char>)
    requires
        find.len() > 0,
        find[0] == '$',
        forall|i: int| 0 <= i < a.len() ==> #[trigger] a[i] != '$',
    ensures
        search::replaced(a + find + rest, 0, find, to) == a + to + search::replaced(
            rest,
            0,
            find,
            to,
        ),
{
    let s = find + rest;
    lemma_no_sign(a, s, find);
    lemma_past(a, s, find, to);
    assert(a + s =~= a + find + rest);
    assert(s.subrange(0, find.len() as int) =~= find);
    assert(s.skip(find.len() as int) =~= rest);
    functions::lemma_replaced_shift(s, rest, find.len() as int, 0, find, to);
    assert(a + (to + search::replaced(rest, 0, find, to)) =~= a + to + search::replaced(
        rest,
        0,
        find,
        to,
    ));
}

/// Every circular dependency that was dropped is warned of, in order, with the target and
/// the prerequisite.
pub proof fn lemma_circles_told(
    dropped: Seq<(Seq<char>, Seq<char>)>,
    i: int,
    log: Seq<AnswerView>,
    k: nat,
)
    requires
        0 <= i <= dropped.len(),
        k <= log.len(),
    ensures
        k + (dropped.len() - i) <= log.len() ==> circles_told(dropped, i, log, k) == Ok::<
            ((), nat),
            (world::StopView, nat),
        >(((), (k + (dropped.len() - i)) as nat)),
        k + (dropped.len() - i) > log.len() ==> ({
            let c = dropped[i + (log.len() - k)];
            circles_told(dropped, i, log, k) == Err::<((), nat), (world::StopView, nat)>(
                (
                    world::StopView::Ask(
                        QueryView::Warn(
                            "mk: Circular "@ + c.0 + " <- "@ + c.1 + " dependency dropped."@,
                        ),
                    ),
                    log.len(),
                ),
            )
        }),
    decreases dropped.len() - i,
{
    if i < dropped.len() && k < log.len() {
        lemma_circles_told(dropped, i + 1, log, k + 1);
    }
}

/// The recipe of a target is run once, with the automatic variables of the target; its
/// failure is the target's.
pub proof fn lemma_single_recipe(
    x: ExecView,
    e: EntryView,
    target: Seq<char>,
    newer: Seq<Seq<char>>,
    log: Seq<AnswerView>,
    k: nat,
    n: nat,
)
    requires
        !x.args.touch,
        !x.args.question,
        newer_prereqs(target, graph::normal_names(e.prereqs), log, k) == Ok::<
            (Seq<Seq<char>>, nat),
            (world::StopView, nat),
        >((newer, n)),
    ensures
        ({
            let stem = if e.stem is Some {
                e.stem->Some_0
            } else {
                seq![]
            };
            let auto = auto_for(
                target,
                graph::normal_names(e.prereqs),
                graph::order_only_names(e.prereqs),
                newer,
                stem,
            );
            let loc = if e.recipe_loc is Some {
                e.recipe_loc->Some_0
            } else {
                LocView { file: target, line: 0 }
            };
            match recipe_run(x, e.recipe, 0, auto, target, loc, log, n) {
                Ok(p) => single_run(x, e, target, log, k) == Ok::<
                    (BuildResultView, nat),
                    (world::StopView, nat),
                >((BuildResultView::Built, p.1)),
                Err(s) => match s.0 {
                    world::StopView::Failed(why) => single_run(x, e, target, log, k) == Ok::<
                        (BuildResultView, nat),
                        (world::StopView, nat),
                    >((BuildResultView::Failed(why), s.1)),
                    world::StopView::Ask(q) => single_run(x, e, target, log, k) == Err::<
                        (BuildResultView, nat),
                        (world::StopView, nat),
                    >(s),
                },
            }
        }),
{
}

/// Without a rule the recipe of `.DEFAULT` is run, with nothing but the target for its
/// automatic variables; its failure is the target's.
pub proof fn lemma_default_recipe(
    x: ExecView,
    g: GraphView,
    recipe: Seq<RecipeLineView>,
    target: Seq<char>,
    loc: LocView,
    log: Seq<AnswerView>,
    k: nat,
)
    requires
        g.default_recipe == Some(recipe),
        !x.args.touch,
        !x.args.question,
    ensures
        match recipe_run(
            x,
            recipe,
            0,
            auto_for(target, seq![], seq![], seq![], seq![]),
            target,
            loc,
            log,
            k,
        ) {
            Ok(p) => default_run(x, g, target, loc, log, k) == Ok::<
                (BuildResultView, nat),
                (world::StopView, nat),
            >((BuildResultView::UpToDate, p.1)),
            Err(s) => match s.0 {
                world::StopView::Failed(why) => default_run(x, g, target, loc, log, k) == Ok::<
                    (BuildResultView, nat),
                    (world::StopView, nat),
                >((BuildResultView::Failed(why), s.1)),
                world::StopView::Ask(q) => default_run(x, g, target, loc, log, k) == Err::<
                    (BuildResultView, nat),
                    (world::StopView, nat),
                >(s),
            },
        },
{
}

/// Under `-q` alone what is stale and has a recipe is out of date, and nothing is run.
pub proof fn lemma_question(
    x: ExecView,
    g: GraphView,
    e: EntryView,
    target: Seq<char>,
    loc: LocView,
    log: Seq<AnswerView>,
    k: nat,
)
    requires
        x.args.question,
        !x.args.touch,
    ensures
        single_run(x, e, target, log, k) matches Ok(p) ==> p.0 is OutOfDate,
        g.default_recipe is Some ==> default_run(x, g, target, loc, log, k) == Ok::<
            (BuildResultView, nat),
            (world::StopView, nat),
        >((BuildResultView::OutOfDate, k)),
        g.at(target).dc_rules.len() > 0 ==> rebuilt(x, g, target, log, k) == Ok::<
            (BuildResultView, nat),
            (world::StopView, nat),
        >((BuildResultView::OutOfDate, k)),
{
}

/// What the recipes of the first `n` double-colon rules of a target came to: `at` says where
/// each began, and none of them has failed.
pub open spec fn all_ran(
    x: ExecView,
    list: Seq<RuleView>,
    n: int,
    target: Seq<char>,
    at: Seq<nat>,
    log: Seq<AnswerView>,
) -> bool {
    &&& 0 <= n <= list.len()
    &&& at.len() == n + 1
    &&& forall|j: int| 0 <= j < n ==> #[trigger] has_run(x, list[j], target, at[j], log, at[j + 1])
}

/// Whether the recipe of a rule, begun at `k`, ran to its end at `n`.
pub open spec fn has_run(
    x: ExecView,
    rule: RuleView,
    target: Seq<char>,
    k: nat,
    log: Seq<AnswerView>,
    n: nat,
) -> bool {
    let names = rules::names_of(rule.prereqs);
    recipe_run(
        x,
        rule.recipe,
        0,
        auto_for(target, names, seq![], names, seq![]),
        target,
        rule.loc,
        log,
        k,
    ) == Ok::<((), nat), (world::StopView, nat)>(((), n))
}

/// All the double-colon rules of a target are run, one after the other. Where none fails
/// the target is built; the first that fails is the target's failure, and later ones are
/// not run, unless errors are ignored or the work is to go on.
pub proof fn lemma_double_rules(
    x: ExecView,
    list: Seq<RuleView>,
    n: int,
    i: int,
    target: Seq<char>,
    at: Seq<nat>,
    log: Seq<AnswerView>,
)
    requires
        all_ran(x, list, n, target, at, log),
        0 <= i <= n,
    ensures
        n == list.len() ==> double_run(x, list, i, None, target, log, at[i]) == Ok::<
            (BuildResultView, nat),
            (world::StopView, nat),
        >((BuildResultView::Built, at[n])),
        double_run(x, list, i, None, target, log, at[i]) == double_run(
            x,
            list,
            n,
            None,
            target,
            log,
            at[n],
        ),
    decreases n - i,
{
    if i < n {
        assert(has_run(x, list[i], target, at[i], log, at[i + 1]));
        lemma_double_rules(x, list, n, i + 1, target, at, log);
    }
}

/// What a double-colon rule that fails comes to: by itself it ends the work on the target;
/// under `-i` it is reported and the next rule is run; under `-k` the next rule is run too,
/// and the target has failed in the end.
pub proof fn lemma_double_fails(
    x: ExecView,
    list: Seq<RuleView>,
    j: int,
    target: Seq<char>,
    why: ErrorView,
    log: Seq<AnswerView>,
    k: nat,
    n: nat,
)
    requires
        0 <= j < list.len(),
        ({
            let names = rules::names_of(list[j].prereqs);
            recipe_run(
                x,
                list[j].recipe,
                0,
                auto_for(target, names, seq![], names, seq![]),
                target,
                list[j].loc,
                log,
                k,
            ) == Err::<((), nat), (world::StopView, nat)>((world::StopView::Failed(why), n))
        }),
    ensures
        !x.args.ignore_errors && !x.args.keep_going ==> double_run(
            x,
            list,
            j,
            None,
            target,
            log,
            k,
        ) == Ok::<(BuildResultView, nat), (world::StopView, nat)>(
            (BuildResultView::Failed(why), n),
        ),
        x.args.ignore_errors && n < log.len() ==> double_run(x, list, j, None, target, log, k)
            == double_run(x, list, j + 1, None, target, log, n + 1),
        x.args.ignore_errors && n >= log.len() ==> double_run(x, list, j, None, target, log, k)
            == Err::<(BuildResultView, nat), (world::StopView, nat)>(
            (world::StopView::Ask(QueryView::Report(why)), n),
        ),
        !x.args.ignore_errors && x.args.keep_going ==> double_run(x, list, j, None, target, log, k)
            == double_run(x, list, j + 1, Some(why), target, log, n),
        !x.args.ignore_errors && x.args.keep_going ==> (double_run(
            x,
            list,
            j,
            None,
            target,
            log,
            k,
        ) matches Ok(p) ==> p.0 is Failed),
{
    if !x.args.ignore_errors && x.args.keep_going {
        lemma_held(x, list, j + 1, why, target, log, n);
    }
}

proof fn lemma_held(
    x: ExecView,
    list: Seq<RuleView>,
    j: int,
    held: ErrorView,
    target: Seq<char>,
    log: Seq<AnswerView>,
    k: nat,
)
    requires
        0 <= j,
    ensures
        double_run(x, list, j, Some(held), target, log, k) matches Ok(p) ==> p.0 is Failed,
    decreases list.len() - j,
{
    if j < list.len() {
        let names = rules::names_of(list[j].prereqs);
        let auto = auto_for(target, names, seq![], names, seq![]);
        let r = world::caught(
            recipe_run(x, list[j].recipe, 0, auto, target, list[j].loc, log, k),
        );
        if let Ok(p) = r {
            lemma_held(x, list, j + 1, held, target, log, p.1);
            lemma_held(x, list, j + 1, held, target, log, p.1 + 1);
            if let Some(e) = p.0 {
                lemma_held(x, list, j + 1, e, target, log, p.1 + 1);
            }
        }
    }
}

/// What is looked for rules for is everything in the order that was not looked at before,
/// and nothing else.
pub proof fn lemma_unlisted(list: Seq<Seq<char>>, done: Seq<Seq<char>>, n: int, x: Seq<char>)
    requires
        0 <= n <= list.len(),
    ensures
        unlisted(list, done, n).contains(x) <==> list.take(n).contains(x) && !done.contains(x),
    decreases n,
{
    if n > 0 {
        lemma_unlisted(list, done, n - 1, x);
        let y = list[n - 1];
        assert(list.take(n) =~= list.take(n - 1).push(y));
        text::lemma_push_contains(list.take(n - 1), y);
        text::lemma_push_contains(unlisted(list, done, n - 1), y);
    } else {
        assert(!list.take(0).contains(x));
    }
}

/// The order in which targets are built is that of the graph with all the rules that were
/// found, and what is built first of all is looked at for rules first.
pub proof fn lemma_planned(
    g: GraphView,
    goals: Seq<Seq<char>>,
    done: Seq<Seq<char>>,
    log: Seq<AnswerView>,
    k: nat,
)
    ensures
        planned(g, goals, done, log, k) matches Ok(p) ==> {
            &&& p.0.1 == graph::topo(p.0.0, goals)
            &&& all_resolved(
                g,
                unlisted(
                    graph::topo(g, goals).order,
                    done,
                    graph::topo(g, goals).order.len() as int,
                ),
                0,
                log,
                k,
            ) is Ok
        },
    decreases log.len() - k,
{
    let order = graph::topo(g, goals).order;
    let fresh = unlisted(order, done, order.len() as int);
    if let Ok(p) = all_resolved(g, fresh, 0, log, k) {
        if k < p.1 && p.1 <= log.len() {
            lemma_planned(p.0, goals, done + fresh, log, p.1);
        }
    }
}

/// Rules are looked for for every target of a list, one after the other, each in the graph
/// that those before it have left.
pub proof fn lemma_all_resolved(
    g: GraphView,
    order: Seq<Seq<char>>,
    i: int,
    log: Seq<AnswerView>,
    k: nat,
)
    requires
        0 <= i <= order.len(),
    ensures
        all_resolved(g, order, i, log, k) matches Ok(p) ==> exists|
            gs: Seq<GraphView>,
            at: Seq<nat>,
        | #[trigger]
            resolves_each(order, i, gs, at, log) && gs[0] == g && gs.last() == p.0 && at[0] == k
                && at.last() == p.1,
    decreases order.len() - i,
{
    if i < order.len() {
        if let Ok(q) = graph::resolved(g, order[i], log, k) {
            lemma_all_resolved(q.0.1, order, i + 1, log, q.1);
            if let Ok(p) = all_resolved(q.0.1, order, i + 1, log, q.1) {
                let (more, rest) = choose|gs: Seq<GraphView>, at: Seq<nat>| #[trigger]
                    resolves_each(order, i + 1, gs, at, log) && gs[0] == q.0.1 && gs.last() == p.0
                        && at[0] == q.1 && at.last() == p.1;
                let gs = seq![g] + more;
                let at = seq![k] + rest;
                assert forall|n: int| i <= n < order.len() implies #[trigger] resolves_one(
                    order,
                    i,
                    n,
                    gs,
                    at,
                    log,
                ) by {
                    if n > i {
                        assert(resolves_one(order, i + 1, n, more, rest, log));
                        assert(gs[n - i] == more[n - (i + 1)] && gs[n - i + 1] == more[n - (i + 1)
                            + 1]);
                        assert(at[n - i] == rest[n - (i + 1)] && at[n - i + 1] == rest[n - (i + 1)
                            + 1]);
                    } else {
                        assert(gs[1] == more[0] && at[1] == rest[0]);
                    }
                }
                assert(resolves_each(order, i, gs, at, log));
                assert(gs.last() == more.last() && at.last() == rest.last());
            }
        }
    } else {
        let gs = seq![g];
        let at = seq![k];
        assert(resolves_each(order, i, gs, at, log));
        assert(gs.last() == g && at.last() == k);
    }
}

/// Whether some graphs are those before rules are looked for for each target from `i` on,
/// and after the last.
pub open spec fn resolves_each(
    order: Seq<Seq<char>>,
    i: int,
    gs: Seq<GraphView>,
    at: Seq<nat>,
    log: Seq<AnswerView>,
) -> bool {
    &&& gs.len() == order.len() - i + 1
    &&& at.len() == order.len() - i + 1
    &&& forall|n: int| i <= n < order.len() ==> #[trigger] resolves_one(order, i, n, gs, at, log)
}

/// Whether looking for a rule for target `n` goes from the graph before it to the one after.
pub open spec fn resolves_one(
    order: Seq<Seq<char>>,
    i: int,
    n: int,
    gs: Seq<GraphView>,
    at: Seq<nat>,
    log: Seq<AnswerView>,
) -> bool {
    graph::resolved(gs[n - i], order[n], log, at[n - i]) matches Ok(p) && p.0.1 == gs[n - i + 1]
        && p.1 == at[n - i + 1]
}

} // verus!
