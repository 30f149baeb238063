//! What a build leaves alone under `-n`, `-q` and `-t`.

use vstd::prelude::*;
use crate::error::{ErrorView, LocView};
use crate::steady;
use crate::world;
use crate::world::{AnswerView, QueryView, StopView, Told};
use super::exec;
use super::exec::{BuildResultView, ExecView};
use super::expand;
use super::expand::AutoView;
use super::graph;
use super::graph::{EntryView, GraphView};
use super::rule::{PatternRuleView, RecipeLineView, RuleView};
use super::rules;
use super::var::Flavor;

verus! {

/// What the options of a build forbid.
pub enum Limit {
    /// `-q`: nothing is run, changed or shown.
    Question,
    /// `-n`: nothing is run or changed.
    DryRun,
    /// `-t`: nothing is run.
    Touch,
}

/// Whether a question is within a limit.
pub open spec fn allows(l: Limit, q: QueryView) -> bool {
    match l {
        Limit::Question => steady::is_harmless(q) && !(q is Print),
        Limit::DryRun => steady::is_harmless(q),
        Limit::Touch => !(q is Run) && !(q is ChangeDir),
    }
}

/// Whether a computation asks only what is within a limit.
pub open spec fn within<T>(l: Limit, r: Told<T>) -> bool {
    r matches Err(e) ==> (e.0 matches StopView::Ask(q) ==> allows(l, q))
}

/// Whether the options of a build set a limit.
pub open spec fn limited(x: ExecView, l: Limit) -> bool {
    match l {
        Limit::Question => x.args.question && !x.args.touch,
        Limit::DryRun => x.args.dry_run,
        Limit::Touch => x.args.touch,
    }
}

/// Whether no line of a recipe is to be run also under `-n`.
pub open spec fn no_plus(recipe: Seq<RecipeLineView>) -> bool {
    forall|i: int| 0 <= i < recipe.len() ==> !(#[trigger] recipe[i]).always_run
}

/// Whether that holds of all recipes of a target.
pub open spec fn entry_no_plus(e: EntryView) -> bool {
    &&& no_plus(e.recipe)
    &&& forall|i: int| 0 <= i < e.dc_rules.len() ==> no_plus((#[trigger] e.dc_rules[i]).recipe)
}

/// Whether that holds of all recipes there are.
pub open spec fn graph_no_plus(g: GraphView) -> bool {
    &&& forall|n: Seq<char>| #[trigger] g.has(n) ==> entry_no_plus(g.at(n))
    &&& forall|i: int|
        0 <= i < g.pattern_rules.len() ==> no_plus((#[trigger] g.pattern_rules[i]).recipe)
    &&& g.default_recipe matches Some(r) ==> no_plus(r)
}

proof fn lemma_put_no_plus(g: GraphView, name: Seq<char>, e: EntryView)
    requires
        graph_no_plus(g),
        entry_no_plus(e),
    ensures
        graph_no_plus(g.put(name, e)),
{
    let h = g.put(name, e);
    assert forall|n: Seq<char>| #[trigger] h.has(n) implies entry_no_plus(h.at(n)) by {
        if n != name {
            assert(g.has(n));
        }
    }
}

proof fn lemma_at_no_plus(g: GraphView, name: Seq<char>)
    requires
        graph_no_plus(g),
    ensures
        entry_no_plus(g.at(name)),
{
    assert(g.has(name) ==> entry_no_plus(g.at(name)));
}

// ── The graph ───────────────────────────────────────────────────────────────

proof fn lemma_mtime_of(g: GraphView, target: Seq<char>, log: Seq<AnswerView>, k: nat)
    ensures
        within(Limit::Question, graph::mtime_of(g, target, log, k)),
        graph_no_plus(g) ==> (graph::mtime_of(g, target, log, k) matches Ok(p) ==> graph_no_plus(
            p.0.1,
        )),
{
    if graph_no_plus(g) {
        lemma_at_no_plus(g, target);
        if let Ok(p) = graph::mtime_of(g, target, log, k) {
            lemma_put_no_plus(g, target, p.0.1.entries[target]);
            assert(p.0.1 == g.put(target, p.0.1.entries[target]));
        }
    }
}

proof fn lemma_outdated(
    g: GraphView,
    names: Seq<Seq<char>>,
    j: int,
    tm: i128,
    log: Seq<AnswerView>,
    k: nat,
)
    ensures
        within(Limit::Question, graph::outdated(g, names, j, tm, log, k)),
        graph_no_plus(g) ==> (graph::outdated(g, names, j, tm, log, k) matches Ok(p)
            ==> graph_no_plus(p.0.1)),
    decreases names.len() - j,
{
    if 0 <= j < names.len() {
        lemma_mtime_of(g, names[j], log, k);
        if let Ok(p) = graph::mtime_of(g, names[j], log, k) {
            lemma_outdated(p.0.1, names, j + 1, tm, log, p.1);
        }
    }
}

proof fn lemma_stale(g: GraphView, target: Seq<char>, log: Seq<AnswerView>, k: nat)
    ensures
        within(Limit::Question, graph::stale(g, target, log, k)),
        graph_no_plus(g) ==> (graph::stale(g, target, log, k) matches Ok(p) ==> graph_no_plus(
            p.0.1,
        )),
{
    lemma_mtime_of(g, target, log, k);
    if let Ok(p) = graph::mtime_of(g, target, log, k) {
        if let Some(tm) = p.0.0 {
            let names = graph::normal_names(graph::all_prereqs(p.0.1.at(target)));
            lemma_outdated(p.0.1, names, 0, tm, log, p.1);
        }
    }
}

proof fn lemma_all_exist(
    prereqs: Seq<Seq<char>>,
    j: int,
    stem: Seq<char>,
    log: Seq<AnswerView>,
    k: nat,
)
    ensures
        within(Limit::Question, graph::all_exist(prereqs, j, stem, log, k)),
    decreases prereqs.len() - j,
{
    if 0 <= j < prereqs.len() && k < log.len() {
        lemma_all_exist(prereqs, j + 1, stem, log, k + 1);
    }
}

proof fn lemma_can_build(
    list: Seq<PatternRuleView>,
    builtin: bool,
    i: int,
    target: Seq<char>,
    log: Seq<AnswerView>,
    k: nat,
)
    ensures
        within(Limit::Question, graph::can_build(list, builtin, i, target, log, k)),
    decreases graph::others_left(builtin), list.len() - i,
{
    if i < 0 || i >= list.len() {
        if !builtin {
            lemma_can_build(list, true, 0, target, log, k);
        }
    } else if list[i].is_builtin != builtin {
        lemma_can_build(list, builtin, i + 1, target, log, k);
    } else {
        match super::rule::stem(target, list[i].target) {
            None => {
                lemma_can_build(list, builtin, i + 1, target, log, k);
            },
            Some(s) => {
                lemma_all_exist(list[i].prereqs, 0, s, log, k);
                if let Ok(p) = graph::all_exist(list[i].prereqs, 0, s, log, k) {
                    lemma_can_build(list, builtin, i + 1, target, log, p.1);
                }
            },
        }
    }
}

proof fn lemma_all_satisfiable(
    g: GraphView,
    i: int,
    j: int,
    stem: Seq<char>,
    log: Seq<AnswerView>,
    k: nat,
)
    ensures
        within(Limit::Question, graph::all_satisfiable(g, i, j, stem, log, k)),
    decreases g.pattern_rules[i].prereqs.len() - j,
{
    let prereqs = g.pattern_rules[i].prereqs;
    if 0 <= j < prereqs.len() && k < log.len() {
        let builtin = g.pattern_rules[i].is_builtin;
        let name = super::rule::applied(prereqs[j], stem);
        lemma_all_satisfiable(g, i, j + 1, stem, log, k + 1);
        lemma_can_build(g.pattern_rules, builtin, i + 1, name, log, k + 1);
        if let Ok(p) = graph::can_build(g.pattern_rules, builtin, i + 1, name, log, k + 1) {
            lemma_all_satisfiable(g, i, j + 1, stem, log, p.1);
        }
    }
}

proof fn lemma_applicable(
    g: GraphView,
    target: Seq<char>,
    builtin: bool,
    i: int,
    log: Seq<AnswerView>,
    k: nat,
)
    requires
        0 <= i,
    ensures
        within(Limit::Question, graph::applicable(g, target, builtin, i, log, k)),
        graph::applicable(g, target, builtin, i, log, k) matches Ok(p) ==> (p.0 matches Some(found) ==> 0
            <= found.0 < g.pattern_rules.len()),
    decreases graph::others_left(builtin), g.pattern_rules.len() - i,
{
    if i < 0 || i >= g.pattern_rules.len() {
        if !builtin {
            lemma_applicable(g, target, true, 0, log, k);
        }
    } else if g.pattern_rules[i].is_builtin != builtin {
        lemma_applicable(g, target, builtin, i + 1, log, k);
    } else {
        match super::rule::stem(target, g.pattern_rules[i].target) {
            None => {
                lemma_applicable(g, target, builtin, i + 1, log, k);
            },
            Some(s) => {
                lemma_all_satisfiable(g, i, 0, s, log, k);
                if let Ok(p) = graph::all_satisfiable(g, i, 0, s, log, k) {
                    lemma_applicable(g, target, builtin, i + 1, log, p.1);
                }
            },
        }
    }
}

proof fn lemma_all_resolved(
    g: GraphView,
    order: Seq<Seq<char>>,
    i: int,
    log: Seq<AnswerView>,
    k: nat,
)
    ensures
        within(Limit::Question, exec::all_resolved(g, order, i, log, k)),
        graph_no_plus(g) ==> (exec::all_resolved(g, order, i, log, k) matches Ok(p)
            ==> graph_no_plus(p.0)),
    decreases order.len() - i,
{
    if 0 <= i < order.len() {
        let target = order[i];
        lemma_applicable(g, target, false, 0, log, k);
        if let Ok(p) = graph::resolved(g, target, log, k) {
            if graph_no_plus(g) {
                lemma_at_no_plus(g, target);
                if let Ok(found) = graph::applicable(g, target, false, 0, log, k) {
                    if let Some(f) = found.0 {
                        assert(no_plus(g.pattern_rules[f.0].recipe));
                        let e = graph::with_rule(
                            g.at(target),
                            g.pattern_rules[f.0],
                            f.0,
                            f.1,
                        );
                        lemma_put_no_plus(g, target, e);
                    }
                }
            }
            lemma_all_resolved(p.0.1, order, i + 1, log, p.1);
        }
    }
}

proof fn lemma_planned(
    g: GraphView,
    goals: Seq<Seq<char>>,
    done: Seq<Seq<char>>,
    log: Seq<AnswerView>,
    k: nat,
)
    ensures
        within(Limit::Question, exec::planned(g, goals, done, log, k)),
        graph_no_plus(g) ==> (exec::planned(g, goals, done, log, k) matches Ok(p)
            ==> graph_no_plus(p.0.0)),
    decreases log.len() - k,
{
    let order = graph::topo(g, goals).order;
    let fresh = exec::unlisted(order, done, order.len() as int);
    lemma_all_resolved(g, fresh, 0, log, k);
    if let Ok(p) = exec::all_resolved(g, fresh, 0, log, k) {
        if k < p.1 && p.1 <= log.len() {
            lemma_planned(p.0, goals, done + fresh, log, p.1);
        }
    }
}

proof fn lemma_circles_told(
    dropped: Seq<(Seq<char>, Seq<char>)>,
    i: int,
    log: Seq<AnswerView>,
    k: nat,
)
    ensures
        within(Limit::Question, exec::circles_told(dropped, i, log, k)),
    decreases dropped.len() - i,
{
    if 0 <= i < dropped.len() && k < log.len() {
        lemma_circles_told(dropped, i + 1, log, k + 1);
    }
}

// ── Recipes ─────────────────────────────────────────────────────────────────

proof fn lemma_recipe_run(
    x: ExecView,
    recipe: Seq<RecipeLineView>,
    i: int,
    auto: AutoView,
    target: Seq<char>,
    loc: LocView,
    log: Seq<AnswerView>,
    k: nat,
)
    requires
        x.args.dry_run,
        no_plus(recipe),
        k <= log.len(),
    ensures
        within(Limit::DryRun, exec::recipe_run(x, recipe, i, auto, target, loc, log, k)),
    decreases recipe.len() - i,
{
    if 0 <= i < recipe.len() {
        assert(log.take(log.len() as int) =~= log);
        let s = recipe[i].text;
        steady::lemma_expansion(s, x.vars, Some(auto), loc, false, log, log, k);
        if let Ok(p) = expand::expansion(s, x.vars, Some(auto), loc, false, log, k) {
            let cmd = exec::own_path(p.0, x.program);
            assert(!recipe[i].always_run);
            if let Ok(q) = exec::command_run(x, recipe[i], cmd, target, loc, log, p.1) {
                lemma_recipe_run(x, recipe, i + 1, auto, target, loc, log, q.1);
            }
        }
    }
}

proof fn lemma_recipe_position(
    x: ExecView,
    recipe: Seq<RecipeLineView>,
    auto: AutoView,
    target: Seq<char>,
    loc: LocView,
    log: Seq<AnswerView>,
    k: nat,
)
    requires
        k <= log.len(),
    ensures
        world::caught(exec::recipe_run(x, recipe, 0, auto, target, loc, log, k)) matches Ok(p)
            ==> p.1 <= log.len(),
{
    assert(log.take(log.len() as int) =~= log);
    steady::lemma_recipe_run(x, recipe, 0, auto, target, loc, log, log, k);
}

proof fn lemma_newer_than(
    list: Seq<Seq<char>>,
    i: int,
    tm: i128,
    log: Seq<AnswerView>,
    k: nat,
)
    ensures
        within(Limit::Question, exec::newer_than(list, i, tm, log, k)),
    decreases list.len() - i,
{
    if 0 <= i < list.len() && k < log.len() {
        lemma_newer_than(list, i + 1, tm, log, k + 1);
    }
}

proof fn lemma_newer_prereqs(
    target: Seq<char>,
    list: Seq<Seq<char>>,
    log: Seq<AnswerView>,
    k: nat,
)
    requires
        k <= log.len(),
    ensures
        within(Limit::Question, exec::newer_prereqs(target, list, log, k)),
        exec::newer_prereqs(target, list, log, k) matches Ok(p) ==> p.1 <= log.len(),
{
    if let Ok(p) = exec::time_now(target, log, k) {
        if let Some(tm) = p.0 {
            lemma_newer_than(list, 0, tm, log, p.1);
        }
    }
    assert(log.take(log.len() as int) =~= log);
    steady::lemma_newer_prereqs(target, list, log, log, k);
}

proof fn lemma_double_run(
    x: ExecView,
    list: Seq<RuleView>,
    j: int,
    held: Option<ErrorView>,
    target: Seq<char>,
    log: Seq<AnswerView>,
    k: nat,
)
    requires
        x.args.dry_run,
        forall|i: int| 0 <= i < list.len() ==> no_plus((#[trigger] list[i]).recipe),
        k <= log.len(),
    ensures
        within(Limit::DryRun, exec::double_run(x, list, j, held, target, log, k)),
    decreases list.len() - j,
{
    if 0 <= j < list.len() {
        let names = rules::names_of(list[j].prereqs);
        let auto = exec::auto_for(target, names, seq![], names, seq![]);
        let loc = list[j].loc;
        assert(no_plus(list[j].recipe));
        lemma_recipe_run(x, list[j].recipe, 0, auto, target, loc, log, k);
        lemma_recipe_position(x, list[j].recipe, auto, target, loc, log, k);
        let r = exec::recipe_run(x, list[j].recipe, 0, auto, target, loc, log, k);
        if let Ok(p) = world::caught(r) {
            let now = if x.args.ignore_errors || p.0 is None {
                held
            } else {
                p.0
            };
            lemma_double_run(x, list, j + 1, now, target, log, p.1);
            if p.1 < log.len() {
                lemma_double_run(x, list, j + 1, now, target, log, p.1 + 1);
            }
        }
    }
}

// ── Builds ──────────────────────────────────────────────────────────────────

proof fn lemma_rebuilt(
    x: ExecView,
    g: GraphView,
    target: Seq<char>,
    l: Limit,
    log: Seq<AnswerView>,
    k: nat,
)
    requires
        limited(x, l),
        l is DryRun ==> graph_no_plus(g),
        k <= log.len(),
    ensures
        within(l, exec::rebuilt(x, g, target, log, k)),
{
    let e = g.at(target);
    let place = exec::recipe_place(e, target);
    if graph_no_plus(g) {
        lemma_at_no_plus(g, target);
    }
    if e.dc_rules.len() > 0 {
        if l is DryRun {
            lemma_double_run(x, e.dc_rules, 0, None, target, log, k);
        }
    } else if e.recipe.len() == 0 && exec::has_rule(e) {
    } else if e.recipe.len() == 0 {
        if l is DryRun {
            if let Some(recipe) = g.default_recipe {
                let auto = exec::auto_for(target, seq![], seq![], seq![], seq![]);
                lemma_recipe_run(x, recipe, 0, auto, target, place, log, k);
            }
        }
    } else {
        let normal = graph::normal_names(e.prereqs);
        lemma_newer_prereqs(target, normal, log, k);
        if let Ok(p) = exec::newer_prereqs(target, normal, log, k) {
            let stem = match e.stem {
                Some(s) => s,
                None => seq![],
            };
            let others = graph::order_only_names(e.prereqs);
            let auto = exec::auto_for(target, normal, others, p.0, stem);
            if l is DryRun {
                lemma_recipe_run(x, e.recipe, 0, auto, target, place, log, p.1);
            }
        }
    }
}

proof fn lemma_built(
    x: ExecView,
    g: GraphView,
    target: Seq<char>,
    l: Limit,
    log: Seq<AnswerView>,
    k: nat,
)
    requires
        limited(x, l),
        l is DryRun ==> graph_no_plus(g),
        k <= log.len(),
    ensures
        within(l, exec::built(x, g, target, log, k)),
        exec::built(x, g, target, log, k) matches Ok(p) ==> p.1 <= log.len() && (graph_no_plus(g)
            ==> graph_no_plus(p.0.1)),
{
    assert(log.take(log.len() as int) =~= log);
    steady::lemma_stale(g, target, log, log, k);
    steady::lemma_built(x, g, target, log, log, k);
    lemma_stale(g, target, log, k);
    if let Ok(p) = graph::stale(g, target, log, k) {
        let h = p.0.1;
        lemma_rebuilt(x, h, target, l, log, p.1);
        if graph_no_plus(g) {
            lemma_at_no_plus(h, target);
            lemma_put_no_plus(h, target, (EntryView { mtime: None, ..h.at(target) }));
        }
    }
}

proof fn lemma_all_built(
    x: ExecView,
    g: GraphView,
    order: Seq<Seq<char>>,
    i: int,
    failed: Seq<Seq<char>>,
    outdated: bool,
    l: Limit,
    log: Seq<AnswerView>,
    k: nat,
)
    requires
        limited(x, l),
        l is DryRun ==> graph_no_plus(g),
        k <= log.len(),
    ensures
        within(l, exec::all_built(x, g, order, i, failed, outdated, log, k)),
    decreases order.len() - i,
{
    if i < 0 || i >= order.len() {
    } else if exec::blocked(g.at(order[i]), failed) {
        lemma_all_built(x, g, order, i + 1, failed.push(order[i]), outdated, l, log, k);
    } else {
        lemma_built(x, g, order[i], l, log, k);
        if let Ok(p) = exec::built(x, g, order[i], log, k) {
            let h = p.0.1;
            match p.0.0 {
                BuildResultView::Failed(e) => {
                    if p.1 < log.len() {
                        lemma_all_built(
                            x,
                            h,
                            order,
                            i + 1,
                            failed.push(order[i]),
                            outdated,
                            l,
                            log,
                            p.1 + 1,
                        );
                    }
                },
                BuildResultView::OutOfDate => {
                    lemma_all_built(x, h, order, i + 1, failed, true, l, log, p.1);
                },
                _ => {
                    lemma_all_built(x, h, order, i + 1, failed, outdated, l, log, p.1);
                },
            }
        }
    }
}

proof fn lemma_within(
    x: ExecView,
    g: GraphView,
    goals: Seq<Seq<char>>,
    l: Limit,
    log: Seq<AnswerView>,
    k: nat,
)
    requires
        limited(x, l),
        l is DryRun ==> graph_no_plus(g),
        k <= log.len(),
    ensures
        within(l, exec::goals_built(x, g, goals, log, k)),
{
    reveal(exec::goals_built);
    assert(log.take(log.len() as int) =~= log);
    lemma_planned(g, goals, seq![], log, k);
    steady::lemma_planned(g, goals, seq![], log, log, k);
    if let Ok(p) = exec::planned(g, goals, seq![], log, k) {
        let w = p.0.1;
        lemma_circles_told(w.dropped, 0, log, p.1);
        steady::lemma_circles_told(w.dropped, 0, log, log, p.1);
        if let Ok(q) = exec::circles_told(w.dropped, 0, log, p.1) {
            lemma_all_built(x, p.0.0, w.order, 0, seq![], false, l, log, q.1);
        }
    }
}

/// Under `-q` a build runs nothing, changes nothing and shows nothing, whatever
/// the answers are.
pub proof fn lemma_question(
    x: ExecView,
    g: GraphView,
    goals: Seq<Seq<char>>,
    log: Seq<AnswerView>,
    k: nat,
)
    requires
        x.args.question,
        !x.args.touch,
        k <= log.len(),
    ensures
        within(Limit::Question, exec::goals_built(x, g, goals, log, k)),
{
    lemma_within(x, g, goals, Limit::Question, log, k);
}

/// Under `-n` a build runs no command and changes nothing, whatever the answers
/// are, where no line is marked with `+`.
pub proof fn lemma_dry_run(
    x: ExecView,
    g: GraphView,
    goals: Seq<Seq<char>>,
    log: Seq<AnswerView>,
    k: nat,
)
    requires
        x.args.dry_run,
        graph_no_plus(g),
        k <= log.len(),
    ensures
        within(Limit::DryRun, exec::goals_built(x, g, goals, log, k)),
{
    lemma_within(x, g, goals, Limit::DryRun, log, k);
}

/// Under `-t` a build runs no command, whatever the answers are.
pub proof fn lemma_touch(
    x: ExecView,
    g: GraphView,
    goals: Seq<Seq<char>>,
    log: Seq<AnswerView>,
    k: nat,
)
    requires
        x.args.touch,
        k <= log.len(),
    ensures
        within(Limit::Touch, exec::goals_built(x, g, goals, log, k)),
{
    lemma_within(x, g, goals, Limit::Touch, log, k);
}

// ── Outcomes ────────────────────────────────────────────────────────────────

proof fn lemma_double_result(
    x: ExecView,
    list: Seq<RuleView>,
    j: int,
    held: Option<ErrorView>,
    target: Seq<char>,
    log: Seq<AnswerView>,
    k: nat,
)
    ensures
        exec::double_run(x, list, j, held, target, log, k) matches Ok(p) ==> !(p.0 is OutOfDate),
    decreases list.len() - j,
{
    if 0 <= j < list.len() {
        let names = rules::names_of(list[j].prereqs);
        let auto = exec::auto_for(target, names, seq![], names, seq![]);
        let r = exec::recipe_run(x, list[j].recipe, 0, auto, target, list[j].loc, log, k);
        if let Ok(p) = world::caught(r) {
            let now = if x.args.ignore_errors || p.0 is None {
                held
            } else {
                p.0
            };
            lemma_double_result(x, list, j + 1, now, target, log, p.1);
            lemma_double_result(x, list, j + 1, now, target, log, p.1 + 1);
        }
    }
}

proof fn lemma_out_of_date(
    x: ExecView,
    g: GraphView,
    target: Seq<char>,
    log: Seq<AnswerView>,
    k: nat,
)
    ensures
        exec::built(x, g, target, log, k) matches Ok(p) ==> (p.0.0 is OutOfDate
            ==> x.args.question),
{
    if let Ok(p) = graph::stale(g, target, log, k) {
        lemma_double_result(x, p.0.1.at(target).dc_rules, 0, None, target, log, p.1);
    }
}

proof fn lemma_counted(
    x: ExecView,
    g: GraphView,
    order: Seq<Seq<char>>,
    i: int,
    failed: Seq<Seq<char>>,
    outdated: bool,
    log: Seq<AnswerView>,
    k: nat,
)
    requires
        0 <= i,
        !x.args.keep_going ==> failed.len() == 0,
    ensures
        exec::all_built(x, g, order, i, failed, outdated, log, k) matches Ok(p) ==> {
            &&& failed.len() <= p.0.0.0
            &&& p.0.0.0 <= failed.len() + (if i < order.len() {
                order.len() - i
            } else {
                0
            })
            &&& !x.args.keep_going ==> p.0.0.0 <= 1
            &&& p.0.0.1 ==> outdated || x.args.question
        },
    decreases order.len() - i,
{
    if i < 0 || i >= order.len() {
    } else if exec::blocked(g.at(order[i]), failed) {
        lemma_counted(x, g, order, i + 1, failed.push(order[i]), outdated, log, k);
    } else {
        if let Ok(p) = exec::built(x, g, order[i], log, k) {
            let h = p.0.1;
            match p.0.0 {
                BuildResultView::Failed(e) => {
                    if x.args.keep_going {
                        let now = failed.push(order[i]);
                        lemma_counted(x, h, order, i + 1, now, outdated, log, p.1 + 1);
                    }
                },
                BuildResultView::OutOfDate => {
                    lemma_out_of_date(x, g, order[i], log, k);
                    lemma_counted(x, h, order, i + 1, failed, true, log, p.1);
                },
                _ => {
                    lemma_counted(x, h, order, i + 1, failed, outdated, log, p.1);
                },
            }
        }
    }
}

/// No more targets fail than there are to build; without `-k` at most one does. A
/// target is found out of date only under `-q`.
pub proof fn lemma_outcome(
    x: ExecView,
    g: GraphView,
    goals: Seq<Seq<char>>,
    log: Seq<AnswerView>,
    k: nat,
)
    ensures
        exec::goals_built(x, g, goals, log, k) matches Ok(p) ==> {
            &&& exec::planned(g, goals, seq![], log, k) is Ok
            &&& p.0.0.0 <= exec::planned(g, goals, seq![], log, k)->Ok_0.0.1.order.len()
            &&& !x.args.keep_going ==> p.0.0.0 <= 1
            &&& p.0.0.1 ==> x.args.question
        },
{
    reveal(exec::goals_built);
    if let Ok(p) = exec::planned(g, goals, seq![], log, k) {
        if let Ok(q) = exec::circles_told(p.0.1.dropped, 0, log, p.1) {
            lemma_counted(x, p.0.0, p.0.1.order, 0, seq![], false, log, q.1);
        }
    }
}

/// The targets are built in the order of the graph in which implicit rules have
/// been looked for, so what such a rule brings in is built, before the target that
/// needs it.
pub proof fn lemma_plan(
    g: GraphView,
    goals: Seq<Seq<char>>,
    done: Seq<Seq<char>>,
    log: Seq<AnswerView>,
    k: nat,
)
    ensures
        exec::planned(g, goals, done, log, k) matches Ok(p) ==> p.0.1 == graph::topo(
            p.0.0,
            goals,
        ),
    decreases log.len() - k,
{
    let order = graph::topo(g, goals).order;
    let fresh = exec::unlisted(order, done, order.len() as int);
    if let Ok(p) = exec::all_resolved(g, fresh, 0, log, k) {
        if k < p.1 && p.1 <= log.len() {
            lemma_plan(p.0, goals, done + fresh, log, p.1);
        }
    }
}

/// A double-colon rule that has failed is not forgotten: where the others are
/// still run, the target fails in the end.
pub proof fn lemma_double_fails(
    x: ExecView,
    list: Seq<RuleView>,
    j: int,
    held: Option<ErrorView>,
    target: Seq<char>,
    log: Seq<AnswerView>,
    k: nat,
)
    requires
        held is Some,
    ensures
        exec::double_run(x, list, j, held, target, log, k) matches Ok(p) ==> p.0 is Failed,
    decreases list.len() - j,
{
    if 0 <= j < list.len() {
        let names = rules::names_of(list[j].prereqs);
        let auto = exec::auto_for(target, names, seq![], names, seq![]);
        let r = exec::recipe_run(x, list[j].recipe, 0, auto, target, list[j].loc, log, k);
        if let Ok(p) = world::caught(r) {
            let now = if x.args.ignore_errors || p.0 is None {
                held
            } else {
                p.0
            };
            lemma_double_fails(x, list, j + 1, now, target, log, p.1);
            lemma_double_fails(x, list, j + 1, now, target, log, p.1 + 1);
        }
    }
}

// ── Single commands ─────────────────────────────────────────────────────────

/// Where errors are ignored, no way for a command to end makes its recipe fail.
pub proof fn lemma_ignored(
    a: AnswerView,
    target: Seq<char>,
    loc: LocView,
    log: Seq<AnswerView>,
    k: nat,
)
    ensures
        exec::judged(a, true, target, loc, log, k) matches Err(e) ==> e.0 is Ask,
{
}

/// Where errors are not ignored, every command that does not end with status 0
/// makes its recipe fail, once the failure has been reported.
pub proof fn lemma_not_ignored(
    a: AnswerView,
    target: Seq<char>,
    loc: LocView,
    log: Seq<AnswerView>,
    k: nat,
)
    ensures
        a == AnswerView::Exit(Some(0i32)) ==> exec::judged(a, false, target, loc, log, k) == Ok::<
            ((), nat),
            (StopView, nat),
        >(((), k)),
        a != AnswerView::Exit(Some(0i32)) ==> exec::judged(a, false, target, loc, log, k) is Err,
        a != AnswerView::Exit(Some(0i32)) && k < log.len() ==> (exec::judged(
            a,
            false,
            target,
            loc,
            log,
            k,
        ) matches Err(e) && e.0 is Failed),
{
}

/// A silent command is not shown. (A value of `SHELL` could itself show something.)
pub proof fn lemma_silent(
    x: ExecView,
    line: RecipeLineView,
    cmd: Seq<char>,
    target: Seq<char>,
    loc: LocView,
    log: Seq<AnswerView>,
    k: nat,
)
    requires
        line.silent || x.args.silent,
        x.vars.vars.dom().finite(),
        x.vars.has("SHELL"@) ==> x.vars.vars["SHELL"@].flavor == Flavor::Simple || expand::is_plain(
            x.vars.raw("SHELL"@),
        ),
    ensures
        exec::command_run(x, line, cmd, target, loc, log, k) matches Err(e) ==> (
        e.0 matches StopView::Ask(q) ==> !(q is Print)),
{
    expand::lemma_value("SHELL"@, x.vars, None, loc, false, log, k);
}

/// A target that depends on one that has failed is passed over: nothing is asked
/// for it, and it counts as failed.
pub proof fn lemma_blocked(
    x: ExecView,
    g: GraphView,
    order: Seq<Seq<char>>,
    i: int,
    failed: Seq<Seq<char>>,
    outdated: bool,
    log: Seq<AnswerView>,
    k: nat,
)
    requires
        0 <= i < order.len(),
        exists|j: int|
            0 <= j < graph::all_prereqs(g.at(order[i])).len() && failed.contains(
                (#[trigger] graph::all_prereqs(g.at(order[i]))[j]).name,
            ),
    ensures
        exec::all_built(x, g, order, i, failed, outdated, log, k) == exec::all_built(
            x,
            g,
            order,
            i + 1,
            failed.push(order[i]),
            outdated,
            log,
            k,
        ),
{
}

/// A target whose rules have no recipe never fails, and nothing is asked for it
/// but what it took to find out whether it is stale.
pub proof fn lemma_no_recipe(
    x: ExecView,
    g: GraphView,
    target: Seq<char>,
    log: Seq<AnswerView>,
    k: nat,
)
    requires
        g.at(target).loc is Some || g.at(target).prereqs.len() > 0,
        g.at(target).recipe.len() == 0,
        g.at(target).dc_rules.len() == 0,
    ensures
        exec::rebuilt(x, g, target, log, k) == Ok::<(BuildResultView, nat), (StopView, nat)>(
            (BuildResultView::UpToDate, k),
        ),
{
}

/// A target that is up to date is left alone: nothing is asked but what it took
/// to find out.
pub proof fn lemma_up_to_date(
    x: ExecView,
    g: GraphView,
    target: Seq<char>,
    log: Seq<AnswerView>,
    k: nat,
)
    ensures
        graph::stale(g, target, log, k) matches Ok(p) ==> (!p.0.0 ==> exec::built(
            x,
            g,
            target,
            log,
            k,
        ) == Ok::<((BuildResultView, GraphView), nat), (StopView, nat)>(
            ((BuildResultView::UpToDate, p.0.1), p.1),
        )),
{
}

} // verus!
