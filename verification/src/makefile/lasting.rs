//! What reading a makefile never takes back.

use vstd::prelude::*;
use crate::args::ArgsView;
use crate::error::LocView;
use crate::text;
use crate::world;
use crate::world::{AnswerView, QueryView};
use super::assign;
use super::conditions::CondFrame;
use super::graph;
use super::graph::{EntryView, GraphView};
use super::lines;
use super::load;
use super::parse;
use super::parse::StateView;
use super::reader;
use super::reader::LogicalLineView;
use super::rule::PrereqView;
use super::rules;
use super::rules::{Mark, RuleStateView, Special};
use super::var;
use super::var::{Flavor, Origin, VarTableView, VarView};
use super::MakefileView;

verus! {

/// Whether `b` begins with `a`.
pub open spec fn continues<T>(a: Seq<T>, b: Seq<T>) -> bool {
    a.len() <= b.len() && b.take(a.len() as int) == a
}

/// Whether a variable is one that no makefile changes: the command line has set
/// it, or it is `CURDIR`.
pub open spec fn is_safe(vars: VarTableView, n: Seq<char>) -> bool {
    vars.has(n) && (vars.vars[n].origin == Origin::CommandLine || assign::fixed(vars, n))
}

/// Whether the variables that no makefile changes are the same in `a` and `b`,
/// except for being exported.
pub open spec fn vars_last(a: VarTableView, b: VarTableView) -> bool {
    &&& forall|n: Seq<char>| #[trigger]
        is_safe(a, n) ==> b.has(n) && b.vars[n].origin == a.vars[n].origin && b.vars[n].flavor
            == a.vars[n].flavor && b.vars[n].raw == a.vars[n].raw
    &&& a.export_all ==> b.export_all
}

/// Whether what is known of a target in `e` is known in `f`: its prerequisites
/// and double-colon rules come first, in the same order, and no mark is lost.
pub open spec fn entry_lasts(e: EntryView, f: EntryView) -> bool {
    &&& continues(e.prereqs, f.prereqs)
    &&& continues(e.dc_rules, f.dc_rules)
    &&& continues(e.target_vars, f.target_vars)
    &&& e.recipe.len() > 0 ==> f.recipe.len() > 0
    &&& e.loc is Some ==> f.loc == e.loc
    &&& e.phony ==> f.phony
    &&& e.precious ==> f.precious
    &&& e.intermediate ==> f.intermediate
    &&& e.secondary ==> f.secondary
}

/// Whether no target and no pattern rule of `a` is lost in `b`.
pub open spec fn graph_lasts(a: GraphView, b: GraphView) -> bool {
    &&& forall|n: Seq<char>| #[trigger] a.has(n) ==> b.has(n) && entry_lasts(a.at(n), b.at(n))
    &&& continues(a.pattern_rules, b.pattern_rules)
    &&& a.default_recipe is Some ==> b.default_recipe is Some
}

/// Whether what the makefile `a` says still stands in `b`.
pub open spec fn lasts(a: MakefileView, b: MakefileView) -> bool {
    &&& vars_last(a.vars, b.vars)
    &&& graph_lasts(a.graph, b.graph)
    &&& a.first_target is Some ==> b.first_target == a.first_target
    &&& b.default_goal == a.default_goal
    &&& continues(a.files_read, b.files_read)
    &&& a.second_expansion ==> b.second_expansion
    &&& a.not_parallel ==> b.not_parallel
    &&& a.global_ignore ==> b.global_ignore
    &&& a.global_silent ==> b.global_silent
    &&& b.include_dirs == a.include_dirs
    &&& b.vpath == a.vpath
    &&& b.restarts == a.restarts
}

proof fn lemma_continues_self<T>(a: Seq<T>)
    ensures
        continues(a, a),
{
    assert(a.take(a.len() as int) =~= a);
}

proof fn lemma_continues_push<T>(a: Seq<T>, x: T)
    ensures
        continues(a, a.push(x)),
{
    assert(a.push(x).take(a.len() as int) =~= a);
}

proof fn lemma_continues_through<T>(a: Seq<T>, b: Seq<T>, c: Seq<T>)
    requires
        continues(a, b),
        continues(b, c),
    ensures
        continues(a, c),
{
    assert(c.take(a.len() as int) =~= c.take(b.len() as int).take(a.len() as int));
}

proof fn lemma_entry_self(e: EntryView)
    ensures
        entry_lasts(e, e),
{
    lemma_continues_self(e.prereqs);
    lemma_continues_self(e.dc_rules);
    lemma_continues_self(e.target_vars);
}

proof fn lemma_entry_through(e: EntryView, f: EntryView, g: EntryView)
    requires
        entry_lasts(e, f),
        entry_lasts(f, g),
    ensures
        entry_lasts(e, g),
{
    lemma_continues_through(e.prereqs, f.prereqs, g.prereqs);
    lemma_continues_through(e.dc_rules, f.dc_rules, g.dc_rules);
    lemma_continues_through(e.target_vars, f.target_vars, g.target_vars);
}

proof fn lemma_graph_self(g: GraphView)
    ensures
        graph_lasts(g, g),
{
    lemma_continues_self(g.pattern_rules);
    assert forall|n: Seq<char>| #[trigger] g.has(n) implies entry_lasts(g.at(n), g.at(n)) by {
        lemma_entry_self(g.at(n));
    }
}

proof fn lemma_graph_through(a: GraphView, b: GraphView, c: GraphView)
    requires
        graph_lasts(a, b),
        graph_lasts(b, c),
    ensures
        graph_lasts(a, c),
{
    lemma_continues_through(a.pattern_rules, b.pattern_rules, c.pattern_rules);
    assert forall|n: Seq<char>| #[trigger] a.has(n) implies c.has(n) && entry_lasts(
        a.at(n),
        c.at(n),
    ) by {
        assert(b.has(n));
        lemma_entry_through(a.at(n), b.at(n), c.at(n));
    }
}

proof fn lemma_graph_put(g: GraphView, name: Seq<char>, e: EntryView)
    requires
        entry_lasts(g.at(name), e),
    ensures
        graph_lasts(g, g.put(name, e)),
{
    let h = g.put(name, e);
    lemma_continues_self(g.pattern_rules);
    assert forall|n: Seq<char>| #[trigger] g.has(n) implies h.has(n) && entry_lasts(
        g.at(n),
        h.at(n),
    ) by {
        if n != name {
            assert(h.at(n) == g.at(n));
            lemma_entry_self(g.at(n));
        }
    }
}

/// Everything stands in the makefile itself.
pub proof fn lemma_lasts_self(a: MakefileView)
    ensures
        lasts(a, a),
{
    lemma_graph_self(a.graph);
    lemma_continues_self(a.files_read);
}

/// What stands through one step and the next stands through both.
pub proof fn lemma_lasts_through(a: MakefileView, b: MakefileView, c: MakefileView)
    requires
        lasts(a, b),
        lasts(b, c),
    ensures
        lasts(a, c),
{
    lemma_vars_through(a.vars, b.vars, c.vars);
    lemma_graph_through(a.graph, b.graph, c.graph);
    lemma_continues_through(a.files_read, b.files_read, c.files_read);
}

proof fn lemma_vars_through(a: VarTableView, b: VarTableView, c: VarTableView)
    requires
        vars_last(a, b),
        vars_last(b, c),
    ensures
        vars_last(a, c),
{
    assert forall|n: Seq<char>| #[trigger] is_safe(a, n) implies c.has(n) && c.vars[n].origin
        == a.vars[n].origin && c.vars[n].flavor == a.vars[n].flavor && c.vars[n].raw
        == a.vars[n].raw by {
        assert(is_safe(b, n));
    }
}

proof fn lemma_with_vars(mf: MakefileView, vars: VarTableView)
    requires
        vars_last(mf.vars, vars),
    ensures
        lasts(mf, (MakefileView { vars, ..mf })),
{
    lemma_graph_self(mf.graph);
    lemma_continues_self(mf.files_read);
}

proof fn lemma_with_graph(mf: MakefileView, g: GraphView)
    requires
        graph_lasts(mf.graph, g),
    ensures
        lasts(mf, (MakefileView { graph: g, ..mf })),
{
    lemma_continues_self(mf.files_read);
}

// ── Variables ───────────────────────────────────────────────────────────────

/// Whether an origin is one that yields to the command line.
pub open spec fn yields(o: Origin) -> bool {
    var::strength(o) < var::strength(Origin::CommandLine)
}

proof fn lemma_exported_all(vars: VarTableView, names: Seq<Seq<char>>, n: int, on: bool)
    ensures
        vars_last(vars, assign::exported_all(vars, names, n, on)),
    decreases n,
{
    if n > 0 {
        lemma_exported_all(vars, names, n - 1, on);
        let mid = assign::exported_all(vars, names, n - 1, on);
        lemma_vars_through(vars, mid, mid.set_exported(names[n - 1], Some(on)));
    }
}

proof fn lemma_assigned_named(
    vars: VarTableView,
    name: Seq<char>,
    flavor: Flavor,
    value: Seq<char>,
    origin: Origin,
    loc: LocView,
    log: Seq<AnswerView>,
    k: nat,
)
    requires
        yields(origin),
    ensures
        assign::assigned_named(vars, name, flavor, value, origin, loc, log, k) matches Ok(p)
            ==> vars_last(vars, p.0),
{
}

/// No assignment in a makefile, not even with `override`, changes what the
/// command line has set, or `CURDIR`.
pub proof fn lemma_assigned(
    vars: VarTableView,
    line: Seq<char>,
    origin: Origin,
    loc: LocView,
    log: Seq<AnswerView>,
    k: nat,
)
    requires
        yields(origin),
    ensures
        assign::assigned(vars, line, origin, loc, log, k) matches Ok(p) ==> vars_last(vars, p.0),
{
}

proof fn lemma_after_export(
    vars: VarTableView,
    rest: Seq<char>,
    loc: LocView,
    log: Seq<AnswerView>,
    k: nat,
)
    ensures
        assign::after_export(vars, rest, loc, log, k) matches Ok(p) ==> vars_last(vars, p.0),
{
    if rest.len() == 0 {
    } else if lines::is_directive(rest, "override"@) {
        let line = text::trim(lines::directive_rest(rest, "override"@));
        lemma_assigned(vars, line, Origin::Override, loc, log, k);
    } else if lines::assigns(rest, 0, 0) {
        lemma_assigned(vars, rest, Origin::File, loc, log, k);
        if let Some(a) = lines::assignment(rest) {
            if let Ok(p) = assign::in_makefile(text::trim(a.name), vars, loc, log, k) {
                let name = text::trim(p.0);
                let value = text::trim_start(a.value);
                let file = Origin::File;
                lemma_assigned_named(vars, name, a.flavor, value, file, loc, log, p.1);
                if let Ok(q) = assign::assigned_named(
                    vars,
                    name,
                    a.flavor,
                    value,
                    file,
                    loc,
                    log,
                    p.1,
                ) {
                    lemma_vars_through(vars, q.0, q.0.set_exported(name, Some(true)));
                }
            }
        }
    } else {
        lemma_exported_names(vars, rest, true, loc, log, k);
    }
}

proof fn lemma_exported_names(
    vars: VarTableView,
    s: Seq<char>,
    on: bool,
    loc: LocView,
    log: Seq<AnswerView>,
    k: nat,
)
    ensures
        assign::exported_names(vars, s, on, loc, log, k) matches Ok(p) ==> vars_last(vars, p.0),
{
    if let Ok(p) = assign::in_makefile(text::trim(s), vars, loc, log, k) {
        let names = text::words(p.0);
        lemma_exported_all(vars, names, names.len() as int, on);
    }
}

proof fn lemma_after_undefine(
    vars: VarTableView,
    rest: Seq<char>,
    loc: LocView,
    log: Seq<AnswerView>,
    k: nat,
)
    ensures
        assign::after_undefine(vars, rest, loc, log, k) matches Ok(p) ==> vars_last(vars, p.0),
{
}

// ── Rules ───────────────────────────────────────────────────────────────────

proof fn lemma_marked_all(g: GraphView, prereqs: Seq<PrereqView>, n: int, m: Mark)
    ensures
        graph_lasts(g, rules::marked_all(g, prereqs, n, m)),
    decreases n,
{
    if n <= 0 {
        lemma_graph_self(g);
    } else {
        lemma_marked_all(g, prereqs, n - 1, m);
        let h = rules::marked_all(g, prereqs, n - 1, m);
        let name = prereqs[n - 1].name;
        lemma_entry_self(h.at(name));
        lemma_graph_put(h, name, rules::marked(h.at(name), m));
        lemma_graph_through(g, h, h.put(name, rules::marked(h.at(name), m)));
    }
}

proof fn lemma_with_special(mf: MakefileView, s: Special, rs: RuleStateView)
    ensures
        lasts(mf, rules::with_special(mf, s, rs)),
{
    lemma_lasts_self(mf);
    if let Special::Mark(m) = s {
        lemma_marked_all(mf.graph, rs.prereqs, rs.prereqs.len() as int, m);
    }
}

proof fn lemma_with_specials(mf: MakefileView, rs: RuleStateView, n: int)
    ensures
        lasts(mf, rules::with_specials(mf, rs, n)),
    decreases n,
{
    if n <= 0 {
        lemma_lasts_self(mf);
    } else {
        lemma_with_specials(mf, rs, n - 1);
        let mid = rules::with_specials(mf, rs, n - 1);
        if let Some(s) = rules::special_named(rs.targets[n - 1]) {
            lemma_with_special(mid, s, rs);
            lemma_lasts_through(mf, mid, rules::with_special(mid, s, rs));
        }
    }
}

proof fn lemma_after_special(mf: MakefileView, rs: RuleStateView)
    ensures
        lasts(mf, rules::after_special(mf, rs).1),
{
    let n = rs.targets.len() as int;
    let made = rules::with_specials(mf, rs, n);
    let done = rules::after_special(mf, rs).1;
    lemma_with_specials(mf, rs, n);
    lemma_graph_self(made.graph);
    lemma_continues_self(made.files_read);
    if !rules::some_special(rs.targets, n) {
        if let Some(target) = rules::pattern_target(rs.targets, 0) {
            lemma_continues_push(made.graph.pattern_rules, done.graph.pattern_rules.last());
            assert(done.graph.pattern_rules == made.graph.pattern_rules.push(
                done.graph.pattern_rules.last(),
            ));
            assert(graph_lasts(made.graph, done.graph));
            lemma_with_graph(made, done.graph);
            lemma_lasts_through(mf, made, done);
        }
    }
}

proof fn lemma_committed_one(
    mf: MakefileView,
    rs: RuleStateView,
    target: Seq<char>,
    log: Seq<AnswerView>,
    k: nat,
)
    ensures
        rules::committed_one(mf, rs, target, log, k) matches Ok(p) ==> lasts(mf, p.0),
{
    let e = mf.graph.at(target);
    lemma_entry_self(e);
    lemma_continues_self(mf.files_read);
    if rs.double_colon {
        let f = rules::with_double(e, rs, target);
        lemma_continues_push(e.dc_rules, f.dc_rules.last());
        lemma_graph_put(mf.graph, target, f);
    } else {
        let f = rules::with_single(e, rs, target);
        let more = rules::prereqs_for(rs, target);
        graph::lemma_merge_keeps(e.prereqs, more, more.len() as int);
        lemma_graph_put(mf.graph, target, f);
    }
}

proof fn lemma_committed_from(
    mf: MakefileView,
    rs: RuleStateView,
    i: int,
    log: Seq<AnswerView>,
    k: nat,
)
    ensures
        rules::committed_from(mf, rs, i, log, k) matches Ok(p) ==> lasts(mf, p.0),
    decreases rs.targets.len() - i,
{
    if i < 0 || i >= rs.targets.len() {
        lemma_lasts_self(mf);
    } else {
        lemma_committed_one(mf, rs, rs.targets[i], log, k);
        if let Ok(p) = rules::committed_one(mf, rs, rs.targets[i], log, k) {
            lemma_committed_from(p.0, rs, i + 1, log, p.1);
            if let Ok(q) = rules::committed_from(p.0, rs, i + 1, log, p.1) {
                lemma_lasts_through(mf, p.0, q.0);
            }
        }
    }
}

proof fn lemma_committed(mf: MakefileView, rs: RuleStateView, log: Seq<AnswerView>, k: nat)
    ensures
        rules::committed(mf, rs, log, k) matches Ok(p) ==> lasts(mf, p.0),
{
    match rs.target_var {
        Some(v) => {
            let e = mf.graph.at(v.0);
            lemma_entry_self(e);
            lemma_continues_push(e.target_vars, v.1);
            let f = EntryView { target_vars: e.target_vars.push(v.1), ..e };
            lemma_graph_put(mf.graph, v.0, f);
            lemma_with_graph(mf, mf.graph.put(v.0, f));
        },
        None => {
            lemma_committed_from(mf, rs, 0, log, k);
        },
    }
}

// ── Makefiles ───────────────────────────────────────────────────────────────

/// Whether a `define` block that is being read comes from a makefile.
spec fn sound(st: StateView) -> bool {
    st.define matches Some(def) ==> yields(def.origin)
}

proof fn lemma_closed_rule(st: StateView, log: Seq<AnswerView>, k: nat)
    ensures
        parse::closed_rule(st, log, k) matches Ok(p) ==> lasts(st.mf, p.0.mf) && p.0.define
            == st.define,
{
    match st.rule {
        None => {
            lemma_lasts_self(st.mf);
        },
        Some(rs) => {
            lemma_after_special(st.mf, rs);
            let special = rules::after_special(st.mf, rs);
            lemma_committed(special.1, rs, log, k);
            if let Ok(p) = rules::committed(special.1, rs, log, k) {
                lemma_lasts_through(st.mf, special.1, p.0);
            }
        },
    }
}

proof fn lemma_listed(vars: VarTableView, list: Seq<char>)
    ensures
        vars_last(
            vars,
            vars.replace(
                "MAKEFILE_LIST"@,
                var::plain_var(Flavor::Simple, Origin::Default, list),
            ),
        ),
{
    reveal_strlit("CURDIR");
    reveal_strlit("MAKEFILE_LIST");
    assert("CURDIR"@.len() != "MAKEFILE_LIST"@.len());
}

proof fn lemma_noted(mf: MakefileView, path: Seq<char>)
    ensures
        lasts(mf, parse::noted(mf, path)),
{
    let listed = parse::noted(mf, path);
    lemma_listed(mf.vars, text::join(listed.files_read, " "@));
    lemma_with_vars(mf, listed.vars);
    lemma_continues_push(mf.files_read, path);
}

proof fn lemma_read_one_other(
    name: Seq<char>,
    silent: bool,
    loc: LocView,
    st: StateView,
    open: Seq<Seq<char>>,
    d: nat,
    log: Seq<AnswerView>,
    k: nat,
)
    ensures
        parse::read_one_other(name, silent, loc, st, open, d, log, k) matches Ok(p) ==> lasts(
            st.mf,
            p.0.mf,
        ) && p.0.define == st.define,
    decreases d, 0int, 0int,
{
    lemma_lasts_self(st.mf);
    if let Ok(p) = parse::located(name, st.mf.include_dirs, log, k) {
        if let Ok(a) = world::asked(log, p.1, QueryView::ReadFile(p.0)) {
            if let AnswerView::Text(src) = a.0 {
                let mf = parse::noted(st.mf, p.0);
                lemma_noted(st.mf, p.0);
                if d > 0 && !parse::is_open(open, p.0) {
                    let e = (d - 1) as nat;
                    lemma_source(src, p.0, mf, seq![], open.push(p.0), e, log, a.1);
                    if let Ok(q) = parse::source(
                        src,
                        p.0,
                        mf,
                        seq![],
                        open.push(p.0),
                        e,
                        log,
                        a.1,
                    ) {
                        lemma_lasts_through(st.mf, mf, q.0);
                    }
                }
            }
        }
    }
}

proof fn lemma_read_others(
    names: Seq<Seq<char>>,
    j: int,
    silent: bool,
    loc: LocView,
    st: StateView,
    open: Seq<Seq<char>>,
    d: nat,
    log: Seq<AnswerView>,
    k: nat,
)
    ensures
        parse::read_others(names, j, silent, loc, st, open, d, log, k) matches Ok(p) ==> lasts(
            st.mf,
            p.0.mf,
        ) && p.0.define == st.define,
    decreases d, 1int, names.len() - j,
{
    if j < 0 || j >= names.len() {
        lemma_lasts_self(st.mf);
    } else {
        lemma_read_one_other(names[j], silent, loc, st, open, d, log, k);
        if let Ok(p) = parse::read_one_other(names[j], silent, loc, st, open, d, log, k) {
            lemma_read_others(names, j + 1, silent, loc, p.0, open, d, log, p.1);
            if let Ok(q) = parse::read_others(
                names,
                j + 1,
                silent,
                loc,
                p.0,
                open,
                d,
                log,
                p.1,
            ) {
                lemma_lasts_through(st.mf, p.0.mf, q.0.mf);
            }
        }
    }
}

proof fn lemma_directive(
    line: Seq<char>,
    loc: LocView,
    st: StateView,
    open: Seq<Seq<char>>,
    d: nat,
    log: Seq<AnswerView>,
    k: nat,
)
    requires
        sound(st),
    ensures
        parse::directive(line, loc, st, open, d, log, k) matches Ok(p) ==> lasts(st.mf, p.0.mf)
            && sound(p.0),
    decreases d, 2int, 0int,
{
    let vars = st.mf.vars;
    lemma_lasts_self(st.mf);
    if let Ok(p) = parse::directive(line, loc, st, open, d, log, k) {
        if lines::is_directive(line, "export"@) {
            lemma_after_export(vars, lines::directive_rest(line, "export"@), loc, log, k);
            lemma_with_vars(st.mf, p.0.mf.vars);
        } else if lines::is_directive(line, "unexport"@) {
            let rest = lines::directive_rest(line, "unexport"@);
            lemma_exported_names(vars, rest, false, loc, log, k);
            lemma_with_vars(st.mf, p.0.mf.vars);
        } else if lines::is_directive(line, "undefine"@) {
            let rest = lines::directive_rest(line, "undefine"@);
            lemma_after_undefine(vars, rest, loc, log, k);
            lemma_with_vars(st.mf, p.0.mf.vars);
        } else if lines::is_directive(line, "define"@) {
        } else if let Some(others) = parse::reads_others(line) {
            if let Ok(q) = assign::in_makefile(text::trim(others.0), vars, loc, log, k) {
                let names = text::words(q.0);
                lemma_read_others(names, 0, others.1, loc, st, open, d, log, q.1);
            }
        } else if lines::is_directive(line, "override"@) {
            let rest = text::trim(lines::directive_rest(line, "override"@));
            lemma_assigned(vars, rest, Origin::Override, loc, log, k);
            lemma_with_vars(st.mf, p.0.mf.vars);
        } else if lines::assigns(line, 0, 0) {
            lemma_assigned(vars, line, Origin::File, loc, log, k);
            lemma_with_vars(st.mf, p.0.mf.vars);
        }
    }
}

proof fn lemma_plain_line(
    line: Seq<char>,
    loc: LocView,
    st: StateView,
    open: Seq<Seq<char>>,
    d: nat,
    log: Seq<AnswerView>,
    k: nat,
)
    requires
        sound(st),
    ensures
        parse::plain_line(line, loc, st, open, d, log, k) matches Ok(p) ==> lasts(st.mf, p.0.mf)
            && sound(p.0),
    decreases d, 2int, 1int,
{
    lemma_lasts_self(st.mf);
    lemma_directive(line, loc, st, open, d, log, k);
}

proof fn lemma_step(
    l: LogicalLineView,
    file: Seq<char>,
    st: StateView,
    open: Seq<Seq<char>>,
    d: nat,
    log: Seq<AnswerView>,
    k: nat,
)
    requires
        sound(st),
    ensures
        parse::step(l, file, st, open, d, log, k) matches Ok(p) ==> lasts(st.mf, p.0.mf) && sound(
            p.0,
        ),
    decreases d, 2int, 2int,
{
    lemma_lasts_self(st.mf);
    match st.define {
        Some(def) => {
            let loc = LocView { file, line: l.line };
            if let Ok(p) = parse::in_define(st, def, l.text, loc, log, k) {
                if lines::is_endef(l.text) {
                    let body = text::join(def.lines, "\n"@);
                    let vars = st.mf.vars;
                    lemma_assigned_named(
                        vars,
                        def.name,
                        def.flavor,
                        body,
                        def.origin,
                        loc,
                        log,
                        k,
                    );
                    lemma_with_vars(st.mf, p.0.mf.vars);
                }
            }
        },
        None => {
            if l.text.len() > 0 && l.text[0] == '\t' {
            } else {
                lemma_closed_rule(st, log, k);
                if let Ok(p) = parse::closed_rule(st, log, k) {
                    let loc = LocView { file, line: l.line };
                    let line = text::trim(l.text);
                    lemma_plain_line(line, loc, p.0, open, d, log, p.1);
                    if let Ok(q) = parse::plain_line(line, loc, p.0, open, d, log, p.1) {
                        lemma_lasts_through(st.mf, p.0.mf, q.0.mf);
                    }
                }
            }
        },
    }
}

proof fn lemma_run(
    all: Seq<LogicalLineView>,
    j: int,
    file: Seq<char>,
    st: StateView,
    open: Seq<Seq<char>>,
    d: nat,
    log: Seq<AnswerView>,
    k: nat,
)
    requires
        sound(st),
    ensures
        parse::run(all, j, file, st, open, d, log, k) matches Ok(p) ==> lasts(st.mf, p.0.mf),
    decreases d, 3int, all.len() - j,
{
    if j < 0 || j >= all.len() {
        lemma_lasts_self(st.mf);
    } else {
        lemma_step(all[j], file, st, open, d, log, k);
        if let Ok(p) = parse::step(all[j], file, st, open, d, log, k) {
            lemma_run(all, j + 1, file, p.0, open, d, log, p.1);
            if let Ok(q) = parse::run(all, j + 1, file, p.0, open, d, log, p.1) {
                lemma_lasts_through(st.mf, p.0.mf, q.0.mf);
            }
        }
    }
}

/// Whatever source text is read, with whatever other makefiles it names: the
/// variables of the command line keep their values, the first target stays the
/// first, no target, prerequisite, double-colon rule, pattern rule or mark is
/// lost, and the files that were read before stay listed first.
pub proof fn lemma_source(
    src: Seq<char>,
    file: Seq<char>,
    mf: MakefileView,
    conds: Seq<CondFrame>,
    open: Seq<Seq<char>>,
    d: nat,
    log: Seq<AnswerView>,
    k: nat,
)
    ensures
        parse::source(src, file, mf, conds, open, d, log, k) matches Ok(p) ==> lasts(mf, p.0),
    decreases d, 4int, 0int,
{
    let st = StateView { mf, conds, define: None, rule: None };
    let all = reader::logical_lines(src);
    lemma_run(all, 0, file, st, open, d, log, k);
    if let Ok(p) = parse::run(all, 0, file, st, open, d, log, k) {
        lemma_closed_rule(p.0, log, p.1);
        if let Ok(q) = parse::closed_rule(p.0, log, p.1) {
            lemma_lasts_through(mf, p.0.mf, q.0.mf);
        }
    }
}

proof fn lemma_with_files(
    mf: MakefileView,
    paths: Seq<Seq<char>>,
    i: int,
    log: Seq<AnswerView>,
    k: nat,
)
    ensures
        load::with_files(mf, paths, i, log, k) matches Ok(p) ==> lasts(mf, p.0),
    decreases paths.len() - i,
{
    lemma_lasts_self(mf);
    if 0 <= i < paths.len() {
        let path = paths[i];
        let d = log.len();
        let read = if path == "-"@ {
            load::with_input(mf, log, k)
        } else {
            load::with_file(mf, path, log, k)
        };
        if let Ok(p) = read {
            if path == "-"@ {
                let a = world::asked(log, k, QueryView::ReadInput)->Ok_0;
                lemma_source(a.0->Text_0, "<stdin>"@, mf, seq![], seq![], d, log, a.1);
            } else {
                let noted = parse::noted(mf, path);
                let a = world::asked(log, k, QueryView::ReadFile(path))->Ok_0;
                lemma_noted(mf, path);
                lemma_source(a.0->Text_0, path, noted, seq![], seq![path], d, log, a.1);
                lemma_lasts_through(mf, noted, p.0);
            }
            lemma_with_files(p.0, paths, i + 1, log, p.1);
            if let Ok(q) = load::with_files(p.0, paths, i + 1, log, p.1) {
                lemma_lasts_through(mf, p.0, q.0);
            }
        }
    }
}

/// What stood before makefiles were loaded stands afterwards.
pub proof fn lemma_loaded(
    paths: Seq<Seq<char>>,
    start: MakefileView,
    log: Seq<AnswerView>,
    k: nat,
)
    ensures
        load::loaded(paths, start, log, k) matches Ok(p) ==> lasts(start, p.0),
{
    lemma_with_files(start, paths, 0, log, k);
    if let Ok(p) = load::with_files(start, paths, 0, log, k) {
        let listed = load::with_list(p.0);
        lemma_listed(p.0.vars, text::join(p.0.files_read, " "@));
        lemma_with_vars(p.0, listed.vars);
        lemma_lasts_through(start, p.0, listed);
    }
}

// ── Precedence ──────────────────────────────────────────────────────────────

/// Whether no variable is stronger than `most`.
spec fn at_most(vars: VarTableView, most: Origin) -> bool {
    forall|n: Seq<char>| #[trigger]
        vars.has(n) ==> var::strength(vars.vars[n].origin) <= var::strength(most)
}

proof fn lemma_set_at_most(vars: VarTableView, name: Seq<char>, v: VarView, most: Origin)
    requires
        at_most(vars, most),
        var::strength(v.origin) <= var::strength(most),
    ensures
        at_most(vars.set(name, v), most),
{
    let after = vars.set(name, v);
    assert forall|n: Seq<char>| #[trigger] after.has(n) implies var::strength(
        after.vars[n].origin,
    ) <= var::strength(most) by {
        if n != name {
            assert(vars.has(n));
        } else if !vars.may_set(name, v.origin) {
            assert(vars.has(n));
        }
    }
}

proof fn lemma_builtins_weak(vars: VarTableView, list: Seq<(Seq<char>, Seq<char>)>, n: int)
    requires
        at_most(vars, Origin::Default),
    ensures
        at_most(load::with_builtins(vars, list, n), Origin::Default),
    decreases n,
{
    if n > 0 {
        lemma_builtins_weak(vars, list, n - 1);
        lemma_set_at_most(
            load::with_builtins(vars, list, n - 1),
            list[n - 1].0,
            var::plain_var(Flavor::Recursive, Origin::Default, list[n - 1].1),
            Origin::Default,
        );
    }
}

proof fn lemma_own_vars(
    args: ArgsView,
    level: Seq<char>,
    program: Seq<char>,
    directory: Seq<char>,
)
    ensures
        at_most(load::own_vars(super::empty_makefile().vars, args, level, program, directory), Origin::Default),
{
    let none = super::empty_makefile().vars;
    let list = super::implicit::builtin_var_list();
    lemma_builtins_weak(none, list, list.len() as int);
    let a = if args.no_builtin_vars {
        none
    } else {
        load::with_builtins(none, list, list.len() as int)
    };
    let d = Origin::Default;
    let v1 = var::plain_var(Flavor::Simple, d, program);
    let v2 = var::plain_var(Flavor::Simple, d, ""@);
    let v3 = var::plain_var(Flavor::Simple, d, directory);
    let v4 = var::plain_var(Flavor::Simple, d, level);
    lemma_set_at_most(a, "MAKE"@, v1, d);
    let b = a.set("MAKE"@, v1);
    lemma_set_at_most(b, "MAKEFILE_LIST"@, v2, d);
    let c = b.set("MAKEFILE_LIST"@, v2);
    lemma_set_at_most(c, "CURDIR"@, v3, d);
    lemma_set_at_most(c.set("CURDIR"@, v3), "MAKELEVEL"@, v4, d);
}

proof fn lemma_with_env_weak(vars: VarTableView, env: Map<Seq<char>, Seq<char>>)
    requires
        at_most(vars, Origin::Default),
    ensures
        at_most(load::with_env(vars, env), Origin::CommandLine),
        forall|n: Seq<char>| #[trigger]
            env.dom().contains(n) ==> load::with_env(vars, env).at(n) == Some(
                load::env_var(env[n]),
            ),
{
    let after = load::with_env(vars, env);
    assert forall|n: Seq<char>| #[trigger] after.has(n) implies var::strength(
        after.vars[n].origin,
    ) <= var::strength(Origin::CommandLine) by {
        if !env.dom().contains(n) {
            assert(vars.has(n));
        } else {
            assert(vars.has(n) ==> vars.may_set(n, Origin::Environment));
        }
    }
    assert forall|n: Seq<char>| #[trigger] env.dom().contains(n) implies after.at(n) == Some(
        load::env_var(env[n]),
    ) by {
        assert(vars.has(n) ==> var::strength(vars.vars[n].origin) <= 0);
    }
}

proof fn lemma_overrides_made(vars: VarTableView, list: Seq<(Seq<char>, Seq<char>)>, n: int, i: int)
    requires
        at_most(vars, Origin::CommandLine),
        0 <= n <= list.len(),
        0 <= i < n ==> forall|j: int| i < j < n ==> (#[trigger] list[j]).0 != list[i].0,
    ensures
        at_most(load::with_overrides(vars, list, n), Origin::CommandLine),
        0 <= i < n ==> load::with_overrides(vars, list, n).at(list[i].0) == Some(
            var::plain_var(Flavor::Simple, Origin::CommandLine, list[i].1),
        ),
    decreases n,
{
    if n > 0 {
        lemma_overrides_made(vars, list, n - 1, i);
        let before = load::with_overrides(vars, list, n - 1);
        let v = var::plain_var(Flavor::Simple, Origin::CommandLine, list[n - 1].1);
        lemma_set_at_most(before, list[n - 1].0, v, Origin::CommandLine);
        assert(before.has(list[n - 1].0) ==> before.may_set(list[n - 1].0, Origin::CommandLine));
        if 0 <= i < n - 1 {
            assert(list[n - 1].0 != list[i].0);
        }
    }
}

/// A variable that is set on the command line, for the last time at position
/// `i`, has that value once all makefiles have been loaded, and also where the
/// environment is put over the makefiles.
pub proof fn lemma_command_line_wins(
    paths: Seq<Seq<char>>,
    args: ArgsView,
    env: Map<Seq<char>, Seq<char>>,
    program: Seq<char>,
    directory: Seq<char>,
    i: int,
    log: Seq<AnswerView>,
    k: nat,
)
    requires
        0 <= i < args.overrides.len(),
        forall|j: int|
            i < j < args.overrides.len() ==> (#[trigger] args.overrides[j]).0
                != args.overrides[i].0,
    ensures
        load::loaded(
            paths,
            load::initial(super::empty_makefile(), args, env, program, directory),
            log,
            k,
        ) matches Ok(p) ==> {
            let name = args.overrides[i].0;
            let value = args.overrides[i].1;
            &&& p.0.vars.has(name)
            &&& p.0.vars.vars[name].origin == Origin::CommandLine
            &&& p.0.vars.vars[name].flavor == Flavor::Simple
            &&& p.0.vars.raw(name) == value
            &&& load::with_env_forced(p.0.vars, env).raw(name) == value
        },
{
    let start = load::initial(super::empty_makefile(), args, env, program, directory);
    lemma_overrides_stand(args, env, program, directory, i);
    assert(is_safe(start.vars, args.overrides[i].0));
    lemma_loaded(paths, start, log, k);
}

proof fn lemma_overrides_stand(
    args: ArgsView,
    env: Map<Seq<char>, Seq<char>>,
    program: Seq<char>,
    directory: Seq<char>,
    i: int,
)
    requires
        0 <= i < args.overrides.len(),
        forall|j: int|
            i < j < args.overrides.len() ==> (#[trigger] args.overrides[j]).0
                != args.overrides[i].0,
    ensures
        load::initial(super::empty_makefile(), args, env, program, directory).vars.at(
            args.overrides[i].0,
        ) == Some(var::plain_var(Flavor::Simple, Origin::CommandLine, args.overrides[i].1)),
{
    let own = load::own_vars(
        super::empty_makefile().vars,
        args,
        load::level_in(env),
        program,
        directory,
    );
    let c = load::with_env(own, env);
    lemma_own_vars(args, load::level_in(env), program, directory);
    lemma_with_env_weak(own, env);
    lemma_overrides_made(c, args.overrides, args.overrides.len() as int, i);
}

/// A variable of the environment stands where the command line does not set it;
/// the built-in value of a variable yields to it.
pub proof fn lemma_environment_over_builtin(
    args: ArgsView,
    env: Map<Seq<char>, Seq<char>>,
    program: Seq<char>,
    directory: Seq<char>,
    name: Seq<char>,
)
    requires
        env.dom().contains(name),
        forall|j: int| 0 <= j < args.overrides.len() ==> (#[trigger] args.overrides[j]).0 != name,
    ensures
        load::initial(super::empty_makefile(), args, env, program, directory).vars.at(name) == Some(
            load::env_var(env[name]),
        ),
{
    let own = load::own_vars(
        super::empty_makefile().vars,
        args,
        load::level_in(env),
        program,
        directory,
    );
    lemma_own_vars(args, load::level_in(env), program, directory);
    lemma_with_env_weak(own, env);
    let c = load::with_env(own, env);
    lemma_overrides_elsewhere(c, args.overrides, args.overrides.len() as int, name);
}

/// `CURDIR` is the working directory, whatever the makefiles say; only the
/// environment and the command line can set it.
pub proof fn lemma_curdir(
    paths: Seq<Seq<char>>,
    args: ArgsView,
    env: Map<Seq<char>, Seq<char>>,
    program: Seq<char>,
    directory: Seq<char>,
    log: Seq<AnswerView>,
    k: nat,
)
    requires
        !env.dom().contains("CURDIR"@),
        forall|j: int|
            0 <= j < args.overrides.len() ==> (#[trigger] args.overrides[j]).0 != "CURDIR"@,
    ensures
        load::loaded(
            paths,
            load::initial(super::empty_makefile(), args, env, program, directory),
            log,
            k,
        ) matches Ok(p) ==> {
            &&& p.0.vars.has("CURDIR"@)
            &&& p.0.vars.raw("CURDIR"@) == directory
            &&& p.0.vars.vars["CURDIR"@].origin == Origin::Default
            &&& load::with_env_forced(p.0.vars, env).raw("CURDIR"@) == directory
        },
{
    let start = load::initial(super::empty_makefile(), args, env, program, directory);
    let own = load::own_vars(
        super::empty_makefile().vars,
        args,
        load::level_in(env),
        program,
        directory,
    );
    lemma_own_curdir(args, load::level_in(env), program, directory);
    let c = load::with_env(own, env);
    lemma_overrides_elsewhere(c, args.overrides, args.overrides.len() as int, "CURDIR"@);
    assert(start.vars.at("CURDIR"@) == own.at("CURDIR"@));
    assert(is_safe(start.vars, "CURDIR"@));
    lemma_loaded(paths, start, log, k);
}

proof fn lemma_own_curdir(
    args: ArgsView,
    level: Seq<char>,
    program: Seq<char>,
    directory: Seq<char>,
)
    ensures
        load::own_vars(super::empty_makefile().vars, args, level, program, directory).at(
            "CURDIR"@,
        ) == Some(var::plain_var(Flavor::Simple, Origin::Default, directory)),
{
    let none = super::empty_makefile().vars;
    let list = super::implicit::builtin_var_list();
    lemma_builtins_weak(none, list, list.len() as int);
    let a = if args.no_builtin_vars {
        none
    } else {
        load::with_builtins(none, list, list.len() as int)
    };
    let d = Origin::Default;
    let v1 = var::plain_var(Flavor::Simple, d, program);
    let v2 = var::plain_var(Flavor::Simple, d, ""@);
    lemma_set_at_most(a, "MAKE"@, v1, d);
    let b = a.set("MAKE"@, v1);
    lemma_set_at_most(b, "MAKEFILE_LIST"@, v2, d);
    let c = b.set("MAKEFILE_LIST"@, v2);
    assert(c.may_set("CURDIR"@, d));
    reveal_strlit("CURDIR");
    reveal_strlit("MAKELEVEL");
    assert("CURDIR"@.len() != "MAKELEVEL"@.len());
}

proof fn lemma_overrides_elsewhere(
    vars: VarTableView,
    list: Seq<(Seq<char>, Seq<char>)>,
    n: int,
    name: Seq<char>,
)
    requires
        0 <= n <= list.len(),
        forall|j: int| 0 <= j < list.len() ==> (#[trigger] list[j]).0 != name,
    ensures
        load::with_overrides(vars, list, n).at(name) == vars.at(name),
    decreases n,
{
    if n > 0 {
        lemma_overrides_elsewhere(vars, list, n - 1, name);
        assert(list[n - 1].0 != name);
    }
}

} // verus!
