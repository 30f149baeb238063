//! What holds of everything that reads answers: answers that come later change
//! nothing of what has been computed, and until recipes are run nothing outside
//! is changed.

use vstd::prelude::*;
use crate::args;
use crate::args::ArgsView;
use crate::error::{ErrorView, LocView};
use crate::makefile;
use crate::makefile::assign;
use crate::makefile::conditions;
use crate::makefile::conditions::{CondFrame, Keyword, Test};
use crate::makefile::database;
use crate::makefile::exec;
use crate::makefile::exec::{BuildResultView, ExecView};
use crate::makefile::expand;
use crate::makefile::expand::{AutoView, ScopeView};
use crate::makefile::functions;
use crate::makefile::functions::Function;
use crate::makefile::graph;
use crate::makefile::graph::GraphView;
use crate::makefile::lines;
use crate::makefile::load;
use crate::makefile::outside;
use crate::makefile::parse;
use crate::makefile::parse::StateView;
use crate::makefile::reader;
use crate::makefile::reader::LogicalLineView;
use crate::makefile::rule;
use crate::makefile::rule::{PatternRuleView, RecipeLineView, RuleView};
use crate::makefile::rules;
use crate::makefile::rules::RuleStateView;
use crate::makefile::var::{Flavor, Origin, VarTableView};
use crate::makefile::vpath;
use crate::makefile::MakefileView;
use crate::names;
use crate::paths;
use crate::run;
use crate::text;
use crate::world;
use crate::world::{AnswerView, QueryView, StopView, Told};

verus! {

/// Whether `more` begins with the answers of `log`.
pub open spec fn goes_on(log: Seq<AnswerView>, more: Seq<AnswerView>) -> bool {
    log.len() <= more.len() && more.take(log.len() as int) == log
}

/// Whether the result `s` with more answers agrees with the result `r` that a
/// computation, begun at answer `k`, had with those in `log`: what was finished,
/// or failed, is the same, and a question is asked only where the answers end.
pub open spec fn steady<T>(log: Seq<AnswerView>, k: nat, r: Told<T>, s: Told<T>) -> bool {
    match r {
        Ok(p) => s == r && k <= p.1 <= log.len(),
        Err(e) => match e.0 {
            StopView::Failed(_) => s == r && k <= e.1 <= log.len(),
            StopView::Ask(_) => e.1 == log.len(),
        },
    }
}

/// Whether a question leaves everything outside as it is.
pub open spec fn is_harmless(q: QueryView) -> bool {
    !(q is Run) && !(q is Touch) && !(q is Create) && !(q is ChangeDir)
}

/// Whether a computation asks only what leaves everything outside as it is.
pub open spec fn asks_harmless<T>(r: Told<T>) -> bool {
    r matches Err(e) ==> (e.0 matches StopView::Ask(q) ==> is_harmless(q))
}

/// Both of these.
pub open spec fn gentle<T>(log: Seq<AnswerView>, k: nat, r: Told<T>, s: Told<T>) -> bool {
    steady(log, k, r, s) && asks_harmless(r)
}

proof fn lemma_asked(log: Seq<AnswerView>, more: Seq<AnswerView>, k: nat)
    requires
        goes_on(log, more),
        k <= log.len(),
    ensures
        forall|q: QueryView|
            steady(log, k, #[trigger] world::asked(log, k, q), world::asked(more, k, q)),
{
    if k < log.len() {
        assert(more.take(log.len() as int)[k as int] == log[k as int]);
    }
}

// ── Functions that need something from outside ──────────────────────────────

proof fn lemma_globs(
    patterns: Seq<Seq<char>>,
    i: int,
    log: Seq<AnswerView>,
    more: Seq<AnswerView>,
    k: nat,
)
    requires
        goes_on(log, more),
        k <= log.len(),
    ensures
        gentle(
            log,
            k,
            outside::globs(patterns, i, log, k),
            outside::globs(patterns, i, more, k),
        ),
    decreases patterns.len() - i,
{
    lemma_asked(log, more, k);
    if 0 <= i < patterns.len() && k < log.len() {
        lemma_globs(patterns, i + 1, log, more, k + 1);
    }
}

proof fn lemma_real_paths(
    words: Seq<Seq<char>>,
    i: int,
    log: Seq<AnswerView>,
    more: Seq<AnswerView>,
    k: nat,
)
    requires
        goes_on(log, more),
        k <= log.len(),
    ensures
        gentle(
            log,
            k,
            outside::real_paths(words, i, log, k),
            outside::real_paths(words, i, more, k),
        ),
    decreases words.len() - i,
{
    lemma_asked(log, more, k);
    if 0 <= i < words.len() && k < log.len() {
        lemma_real_paths(words, i + 1, log, more, k + 1);
    }
}

proof fn lemma_abs_paths(
    words: Seq<Seq<char>>,
    i: int,
    log: Seq<AnswerView>,
    more: Seq<AnswerView>,
    k: nat,
)
    requires
        goes_on(log, more),
        k <= log.len(),
    ensures
        gentle(
            log,
            k,
            outside::abs_paths(words, i, log, k),
            outside::abs_paths(words, i, more, k),
        ),
    decreases words.len() - i,
{
    lemma_asked(log, more, k);
    if 0 <= i < words.len() {
        if paths::is_absolute(words[i]) {
            lemma_abs_paths(words, i + 1, log, more, k);
        } else if k < log.len() {
            lemma_abs_paths(words, i + 1, log, more, k + 1);
        }
    }
}

proof fn lemma_outside(
    f: Function,
    args: Seq<Seq<char>>,
    loc: LocView,
    log: Seq<AnswerView>,
    more: Seq<AnswerView>,
    k: nat,
)
    requires
        goes_on(log, more),
        k <= log.len(),
    ensures
        gentle(
            log,
            k,
            outside::outside(f, args, loc, log, k),
            outside::outside(f, args, loc, more, k),
        ),
{
    let words = text::words(functions::arg(args, 0));
    lemma_asked(log, more, k);
    lemma_globs(words, 0, log, more, k);
    lemma_real_paths(words, 0, log, more, k);
    lemma_abs_paths(words, 0, log, more, k);
}

// ── Expansion ───────────────────────────────────────────────────────────────

spec fn with_log(c: ScopeView, log: Seq<AnswerView>) -> ScopeView {
    ScopeView { log, ..c }
}

proof fn lemma_expanded(
    c: ScopeView,
    more: Seq<AnswerView>,
    s: Seq<char>,
    i: int,
    ov: Map<Seq<char>, Seq<char>>,
    st: Seq<Seq<char>>,
    d: nat,
    k: nat,
)
    requires
        goes_on(c.log, more),
        k <= c.log.len(),
        0 <= i,
    ensures
        gentle(
            c.log,
            k,
            expand::expanded(c, s, i, ov, st, d, k),
            expand::expanded(with_log(c, more), s, i, ov, st, d, k),
        ),
    decreases d, expand::unseen(c.vars, st), s.len(), 1int, s.len() - i,
{
    if i >= s.len() {
    } else if s[i] != '$' {
        lemma_expanded(c, more, s, i + 1, ov, st, d, k);
    } else if i + 1 >= s.len() {
    } else if s[i + 1] == '$' {
        lemma_expanded(c, more, s, i + 2, ov, st, d, k);
    } else if s[i + 1] == '(' || s[i + 1] == '{' {
        let close = expand::close_of(s[i + 1]);
        let end = expand::closing(s, i + 2, s[i + 1], close, 1);
        expand::lemma_closing(s, i + 2, s[i + 1], close, 1);
        let inner = s.subrange(i + 2, end);
        lemma_reference(c, more, inner, ov, st, d, k);
        if let Ok(p) = expand::reference(c, inner, ov, st, d, k) {
            lemma_expanded(c, more, s, expand::behind(s, end), ov, st, d, p.1);
        }
    } else if expand::is_short_name(s[i + 1]) {
        let inner = seq![s[i + 1]];
        lemma_reference(c, more, inner, ov, st, d, k);
        if let Ok(p) = expand::reference(c, inner, ov, st, d, k) {
            lemma_expanded(c, more, s, i + 2, ov, st, d, p.1);
        }
    } else {
        lemma_expanded(c, more, s, i + 2, ov, st, d, k);
    }
}

proof fn lemma_reference(
    c: ScopeView,
    more: Seq<AnswerView>,
    inner: Seq<char>,
    ov: Map<Seq<char>, Seq<char>>,
    st: Seq<Seq<char>>,
    d: nat,
    k: nat,
)
    requires
        goes_on(c.log, more),
        k <= c.log.len(),
    ensures
        gentle(
            c.log,
            k,
            expand::reference(c, inner, ov, st, d, k),
            expand::reference(with_log(c, more), inner, ov, st, d, k),
        ),
    decreases d, expand::unseen(c.vars, st), inner.len(), 4int, 0int,
{
    if !expand::is_auto_part(inner) {
        expand::lemma_called_short(inner);
        match expand::called(inner) {
            Some(f) => {
                if functions::is_lazy(f) {
                    lemma_lazy(c, more, f, expand::called_with(inner), ov, st, d, k);
                } else {
                    let parts = expand::raw_args(expand::called_with(inner));
                    lemma_args(c, more, parts, 0, ov, st, d, k);
                    if let Ok(p) = expand::args(c, parts, 0, ov, st, d, k) {
                        lemma_outside(f, p.0, c.loc, c.log, more, p.1);
                    }
                }
            },
            None => {
                lemma_expanded(c, more, inner, 0, ov, st, d, k);
                if let Ok(p) = expand::expanded(c, inner, 0, ov, st, d, k) {
                    lemma_lookup(c, more, p.0, ov, st, d, p.1);
                }
            },
        }
    }
}

proof fn lemma_lookup(
    c: ScopeView,
    more: Seq<AnswerView>,
    name: Seq<char>,
    ov: Map<Seq<char>, Seq<char>>,
    st: Seq<Seq<char>>,
    d: nat,
    k: nat,
)
    requires
        goes_on(c.log, more),
        k <= c.log.len(),
    ensures
        gentle(
            c.log,
            k,
            expand::lookup(c, name, ov, st, d, k),
            expand::lookup(with_log(c, more), name, ov, st, d, k),
        ),
    decreases d, expand::unseen(c.vars, st), 0int, 0int, 0int,
{
    if c.vars.has(name) && !st.contains(name) && c.vars.vars.dom().finite() {
        let v = c.vars.vars[name];
        names::lemma_stack_grows(c.vars.vars.dom(), st, name);
        lemma_expanded(c, more, v.raw, 0, ov, st.push(name), d, k);
    }
}

proof fn lemma_args(
    c: ScopeView,
    more: Seq<AnswerView>,
    parts: Seq<Seq<char>>,
    j: int,
    ov: Map<Seq<char>, Seq<char>>,
    st: Seq<Seq<char>>,
    d: nat,
    k: nat,
)
    requires
        goes_on(c.log, more),
        k <= c.log.len(),
    ensures
        gentle(
            c.log,
            k,
            expand::args(c, parts, j, ov, st, d, k),
            expand::args(with_log(c, more), parts, j, ov, st, d, k),
        ),
    decreases d, expand::unseen(c.vars, st), expand::longest(parts), 2int, parts.len() - j,
{
    if 0 <= j < parts.len() {
        expand::lemma_longest(parts, j);
        lemma_expanded(c, more, parts[j], 0, ov, st, d, k);
        if let Ok(p) = expand::expanded(c, parts[j], 0, ov, st, d, k) {
            lemma_args(c, more, parts, j + 1, ov, st, d, p.1);
        }
    }
}

proof fn lemma_first_nonblank(
    c: ScopeView,
    more: Seq<AnswerView>,
    parts: Seq<Seq<char>>,
    j: int,
    ov: Map<Seq<char>, Seq<char>>,
    st: Seq<Seq<char>>,
    d: nat,
    k: nat,
)
    requires
        goes_on(c.log, more),
        k <= c.log.len(),
    ensures
        gentle(
            c.log,
            k,
            expand::first_nonblank(c, parts, j, ov, st, d, k),
            expand::first_nonblank(with_log(c, more), parts, j, ov, st, d, k),
        ),
    decreases d, expand::unseen(c.vars, st), expand::longest(parts), 2int, parts.len() - j,
{
    if 0 <= j < parts.len() {
        expand::lemma_longest(parts, j);
        lemma_expanded(c, more, parts[j], 0, ov, st, d, k);
        if let Ok(p) = expand::expanded(c, parts[j], 0, ov, st, d, k) {
            lemma_first_nonblank(c, more, parts, j + 1, ov, st, d, p.1);
        }
    }
}

proof fn lemma_all_nonblank(
    c: ScopeView,
    more: Seq<AnswerView>,
    parts: Seq<Seq<char>>,
    j: int,
    last: Seq<char>,
    ov: Map<Seq<char>, Seq<char>>,
    st: Seq<Seq<char>>,
    d: nat,
    k: nat,
)
    requires
        goes_on(c.log, more),
        k <= c.log.len(),
    ensures
        gentle(
            c.log,
            k,
            expand::all_nonblank(c, parts, j, last, ov, st, d, k),
            expand::all_nonblank(with_log(c, more), parts, j, last, ov, st, d, k),
        ),
    decreases d, expand::unseen(c.vars, st), expand::longest(parts), 2int, parts.len() - j,
{
    if 0 <= j < parts.len() {
        expand::lemma_longest(parts, j);
        lemma_expanded(c, more, parts[j], 0, ov, st, d, k);
        if let Ok(p) = expand::expanded(c, parts[j], 0, ov, st, d, k) {
            lemma_all_nonblank(c, more, parts, j + 1, p.0, ov, st, d, p.1);
        }
    }
}

proof fn lemma_each(
    c: ScopeView,
    more: Seq<AnswerView>,
    words: Seq<Seq<char>>,
    j: int,
    name: Seq<char>,
    body: Seq<char>,
    ov: Map<Seq<char>, Seq<char>>,
    st: Seq<Seq<char>>,
    d: nat,
    k: nat,
)
    requires
        goes_on(c.log, more),
        k <= c.log.len(),
    ensures
        gentle(
            c.log,
            k,
            expand::each(c, words, j, name, body, ov, st, d, k),
            expand::each(with_log(c, more), words, j, name, body, ov, st, d, k),
        ),
    decreases d, expand::unseen(c.vars, st), body.len(), 2int, words.len() - j,
{
    if 0 <= j < words.len() {
        let inner = ov.insert(name, words[j]);
        lemma_expanded(c, more, body, 0, inner, st, d, k);
        if let Ok(p) = expand::expanded(c, body, 0, inner, st, d, k) {
            lemma_each(c, more, words, j + 1, name, body, ov, st, d, p.1);
        }
    }
}

proof fn lemma_lazy(
    c: ScopeView,
    more: Seq<AnswerView>,
    f: Function,
    raw: Seq<char>,
    ov: Map<Seq<char>, Seq<char>>,
    st: Seq<Seq<char>>,
    d: nat,
    k: nat,
)
    requires
        goes_on(c.log, more),
        k <= c.log.len(),
    ensures
        gentle(
            c.log,
            k,
            expand::lazy(c, f, raw, ov, st, d, k),
            expand::lazy(with_log(c, more), f, raw, ov, st, d, k),
        ),
    decreases d, expand::unseen(c.vars, st), raw.len(), 3int, 0int,
{
    let parts = expand::raw_args(raw);
    expand::lemma_args_short(raw);
    let p0 = functions::arg(parts, 0);
    let p1 = functions::arg(parts, 1);
    let p2 = functions::arg(parts, 2);
    match f {
        Function::If => {
            lemma_expanded(c, more, p0, 0, ov, st, d, k);
            if let Ok(p) = expand::expanded(c, p0, 0, ov, st, d, k) {
                lemma_expanded(c, more, p1, 0, ov, st, d, p.1);
                lemma_expanded(c, more, p2, 0, ov, st, d, p.1);
            }
        },
        Function::Or => {
            lemma_first_nonblank(c, more, parts, 0, ov, st, d, k);
        },
        Function::And => {
            lemma_all_nonblank(c, more, parts, 0, seq![], ov, st, d, k);
        },
        Function::Foreach => {
            lemma_expanded(c, more, p0, 0, ov, st, d, k);
            if let Ok(name) = expand::expanded(c, p0, 0, ov, st, d, k) {
                lemma_expanded(c, more, p1, 0, ov, st, d, name.1);
                if let Ok(list) = expand::expanded(c, p1, 0, ov, st, d, name.1) {
                    let words = text::words(list.0);
                    lemma_each(c, more, words, 0, name.0, p2, ov, st, d, list.1);
                }
            }
        },
        Function::Call => {
            lemma_expanded(c, more, p0, 0, ov, st, d, k);
            if let Ok(name) = expand::expanded(c, p0, 0, ov, st, d, k) {
                lemma_args(c, more, parts, 1, ov, st, d, name.1);
                if let Ok(values) = expand::args(c, parts, 1, ov, st, d, name.1) {
                    let n = values.0.len() as int;
                    let inner = expand::numbered(ov, values.0, n).insert("0"@, name.0);
                    let body = expand::call_body(c, name.0, ov);
                    if d > 0 {
                        lemma_expanded(c, more, body, 0, inner, st, (d - 1) as nat, values.1);
                    }
                }
            }
        },
        Function::Eval => {
            lemma_expanded(c, more, raw, 0, ov, st, d, k);
            if let Ok(p) = expand::expanded(c, raw, 0, ov, st, d, k) {
                lemma_asked(c.log, more, p.1);
            }
        },
        _ => {},
    }
}

/// An expansion that was finished, or failed, stays as it is whatever answers
/// come later; and no expansion changes anything outside, except through
/// `$(shell …)`.
pub proof fn lemma_expansion(
    s: Seq<char>,
    vars: VarTableView,
    auto: Option<AutoView>,
    loc: LocView,
    evals: bool,
    log: Seq<AnswerView>,
    more: Seq<AnswerView>,
    k: nat,
)
    requires
        goes_on(log, more),
        k <= log.len(),
    ensures
        gentle(
            log,
            k,
            expand::expansion(s, vars, auto, loc, evals, log, k),
            expand::expansion(s, vars, auto, loc, evals, more, k),
        ),
{
    let c = ScopeView { vars, auto, loc, evals, log };
    lemma_expanded(
        c,
        more,
        s,
        0,
        Map::empty(),
        seq![],
        expand::MAX_CALLS as nat,
        k,
    );
}

proof fn lemma_value(
    name: Seq<char>,
    vars: VarTableView,
    loc: LocView,
    log: Seq<AnswerView>,
    more: Seq<AnswerView>,
    k: nat,
)
    requires
        goes_on(log, more),
        k <= log.len(),
    ensures
        gentle(
            log,
            k,
            expand::value_of(name, vars, None, loc, false, log, k),
            expand::value_of(name, vars, None, loc, false, more, k),
        ),
{
    let c = ScopeView { vars, auto: None, loc, evals: false, log };
    lemma_lookup(c, more, name, Map::empty(), seq![], expand::MAX_CALLS as nat, k);
}

// ── Lines of a makefile ─────────────────────────────────────────────────────

proof fn lemma_in_makefile(
    s: Seq<char>,
    vars: VarTableView,
    loc: LocView,
    log: Seq<AnswerView>,
    more: Seq<AnswerView>,
    k: nat,
)
    requires
        goes_on(log, more),
        k <= log.len(),
    ensures
        gentle(
            log,
            k,
            assign::in_makefile(s, vars, loc, log, k),
            assign::in_makefile(s, vars, loc, more, k),
        ),
{
    lemma_expansion(s, vars, None, loc, false, log, more, k);
}

proof fn lemma_assigned_named(
    vars: VarTableView,
    name: Seq<char>,
    flavor: Flavor,
    value: Seq<char>,
    origin: Origin,
    loc: LocView,
    log: Seq<AnswerView>,
    more: Seq<AnswerView>,
    k: nat,
)
    requires
        goes_on(log, more),
        k <= log.len(),
    ensures
        gentle(
            log,
            k,
            assign::assigned_named(vars, name, flavor, value, origin, loc, log, k),
            assign::assigned_named(vars, name, flavor, value, origin, loc, more, k),
        ),
{
    lemma_in_makefile(value, vars, loc, log, more, k);
}

proof fn lemma_assigned(
    vars: VarTableView,
    line: Seq<char>,
    origin: Origin,
    loc: LocView,
    log: Seq<AnswerView>,
    more: Seq<AnswerView>,
    k: nat,
)
    requires
        goes_on(log, more),
        k <= log.len(),
    ensures
        gentle(
            log,
            k,
            assign::assigned(vars, line, origin, loc, log, k),
            assign::assigned(vars, line, origin, loc, more, k),
        ),
{
    if let Some(a) = lines::assignment(line) {
        lemma_in_makefile(text::trim(a.name), vars, loc, log, more, k);
        if let Ok(p) = assign::in_makefile(text::trim(a.name), vars, loc, log, k) {
            let name = text::trim(p.0);
            let value = text::trim_start(a.value);
            lemma_assigned_named(vars, name, a.flavor, value, origin, loc, log, more, p.1);
        }
    }
}

proof fn lemma_exported_names(
    vars: VarTableView,
    s: Seq<char>,
    on: bool,
    loc: LocView,
    log: Seq<AnswerView>,
    more: Seq<AnswerView>,
    k: nat,
)
    requires
        goes_on(log, more),
        k <= log.len(),
    ensures
        gentle(
            log,
            k,
            assign::exported_names(vars, s, on, loc, log, k),
            assign::exported_names(vars, s, on, loc, more, k),
        ),
{
    lemma_in_makefile(text::trim(s), vars, loc, log, more, k);
}

proof fn lemma_after_export(
    vars: VarTableView,
    rest: Seq<char>,
    loc: LocView,
    log: Seq<AnswerView>,
    more: Seq<AnswerView>,
    k: nat,
)
    requires
        goes_on(log, more),
        k <= log.len(),
    ensures
        gentle(
            log,
            k,
            assign::after_export(vars, rest, loc, log, k),
            assign::after_export(vars, rest, loc, more, k),
        ),
{
    let line = text::trim(lines::directive_rest(rest, "override"@));
    lemma_assigned(vars, line, Origin::Override, loc, log, more, k);
    lemma_assigned(vars, rest, Origin::File, loc, log, more, k);
    if let Some(a) = lines::assignment(rest) {
        lemma_in_makefile(text::trim(a.name), vars, loc, log, more, k);
        if let Ok(p) = assign::in_makefile(text::trim(a.name), vars, loc, log, k) {
            let name = text::trim(p.0);
            let value = text::trim_start(a.value);
            lemma_assigned_named(vars, name, a.flavor, value, Origin::File, loc, log, more, p.1);
        }
    }
    lemma_exported_names(vars, rest, true, loc, log, more, k);
}

proof fn lemma_after_undefine(
    vars: VarTableView,
    rest: Seq<char>,
    loc: LocView,
    log: Seq<AnswerView>,
    more: Seq<AnswerView>,
    k: nat,
)
    requires
        goes_on(log, more),
        k <= log.len(),
    ensures
        gentle(
            log,
            k,
            assign::after_undefine(vars, rest, loc, log, k),
            assign::after_undefine(vars, rest, loc, more, k),
        ),
{
    lemma_in_makefile(lines::undefined(rest).0, vars, loc, log, more, k);
}

proof fn lemma_holds(
    test: Test,
    vars: VarTableView,
    rest: Seq<char>,
    loc: LocView,
    log: Seq<AnswerView>,
    more: Seq<AnswerView>,
    k: nat,
)
    requires
        goes_on(log, more),
        k <= log.len(),
    ensures
        gentle(
            log,
            k,
            conditions::holds(test, vars, rest, loc, log, k),
            conditions::holds(test, vars, rest, loc, more, k),
        ),
{
    let c = lines::compared(rest);
    lemma_in_makefile(c.0, vars, loc, log, more, k);
    if let Ok(a) = assign::in_makefile(c.0, vars, loc, log, k) {
        lemma_in_makefile(c.1, vars, loc, log, more, a.1);
    }
    lemma_in_makefile(rest, vars, loc, log, more, k);
}

proof fn lemma_after_conditional(
    conds: Seq<CondFrame>,
    word: Keyword,
    rest: Seq<char>,
    vars: VarTableView,
    loc: LocView,
    log: Seq<AnswerView>,
    more: Seq<AnswerView>,
    k: nat,
)
    requires
        goes_on(log, more),
        k <= log.len(),
    ensures
        gentle(
            log,
            k,
            conditions::after_conditional(conds, word, rest, vars, loc, log, k),
            conditions::after_conditional(conds, word, rest, vars, loc, more, k),
        ),
{
    match word {
        Keyword::If(test) => {
            lemma_holds(test, vars, rest, loc, log, more, k);
        },
        Keyword::Else => {
            if let Some(test) = conditions::else_test(rest) {
                let behind = text::trim(rest.skip(conditions::letters_end(rest, 0)));
                lemma_holds(test, vars, behind, loc, log, more, k);
            }
        },
        Keyword::Endif => {},
    }
}

proof fn lemma_header(
    line: Seq<char>,
    vars: VarTableView,
    loc: LocView,
    log: Seq<AnswerView>,
    more: Seq<AnswerView>,
    k: nat,
)
    requires
        goes_on(log, more),
        k <= log.len(),
    ensures
        gentle(
            log,
            k,
            rules::header(line, vars, loc, log, k),
            rules::header(line, vars, loc, more, k),
        ),
{
    if let Some(colon) = lines::rule_colon(line, 0, 0) {
        let behind = line.skip(colon + 1);
        let rest = if behind.len() > 0 && behind[0] == ':' {
            behind.skip(1)
        } else {
            behind
        };
        let names = text::trim(line.take(colon));
        lemma_in_makefile(names, vars, loc, log, more, k);
        if let Ok(p) = assign::in_makefile(names, vars, loc, log, k) {
            let list = text::trim(rules::static_parts(text::words(p.0), rest).1);
            lemma_in_makefile(list, vars, loc, log, more, p.1);
        }
    }
}

proof fn lemma_committed_from(
    mf: MakefileView,
    rs: RuleStateView,
    i: int,
    log: Seq<AnswerView>,
    more: Seq<AnswerView>,
    k: nat,
)
    requires
        goes_on(log, more),
        k <= log.len(),
    ensures
        gentle(
            log,
            k,
            rules::committed_from(mf, rs, i, log, k),
            rules::committed_from(mf, rs, i, more, k),
        ),
    decreases rs.targets.len() - i,
{
    if 0 <= i < rs.targets.len() {
        lemma_asked(log, more, k);
        if k < log.len() {
            lemma_asked(log, more, k + 1);
        }
        if let Ok(p) = rules::committed_one(mf, rs, rs.targets[i], log, k) {
            lemma_committed_from(p.0, rs, i + 1, log, more, p.1);
        }
    }
}

proof fn lemma_closed_rule(
    st: StateView,
    log: Seq<AnswerView>,
    more: Seq<AnswerView>,
    k: nat,
)
    requires
        goes_on(log, more),
        k <= log.len(),
    ensures
        gentle(log, k, parse::closed_rule(st, log, k), parse::closed_rule(st, more, k)),
{
    if let Some(rs) = st.rule {
        lemma_committed_from(rules::after_special(st.mf, rs).1, rs, 0, log, more, k);
    }
}

proof fn lemma_first_existing(
    list: Seq<Seq<char>>,
    i: int,
    log: Seq<AnswerView>,
    more: Seq<AnswerView>,
    k: nat,
)
    requires
        goes_on(log, more),
        k <= log.len(),
    ensures
        gentle(
            log,
            k,
            vpath::first_existing(list, i, log, k),
            vpath::first_existing(list, i, more, k),
        ),
    decreases list.len() - i,
{
    lemma_asked(log, more, k);
    if 0 <= i < list.len() && k < log.len() {
        lemma_first_existing(list, i + 1, log, more, k + 1);
    }
}

proof fn lemma_located(
    name: Seq<char>,
    dirs: Seq<Seq<char>>,
    log: Seq<AnswerView>,
    more: Seq<AnswerView>,
    k: nat,
)
    requires
        goes_on(log, more),
        k <= log.len(),
    ensures
        gentle(log, k, parse::located(name, dirs, log, k), parse::located(name, dirs, more, k)),
{
    lemma_asked(log, more, k);
    if k < log.len() {
        lemma_first_existing(vpath::places(dirs, name), 0, log, more, k + 1);
    }
}

proof fn lemma_opens_rule(
    st: StateView,
    line: Seq<char>,
    loc: LocView,
    log: Seq<AnswerView>,
    more: Seq<AnswerView>,
    k: nat,
)
    requires
        goes_on(log, more),
        k <= log.len(),
    ensures
        gentle(
            log,
            k,
            parse::opens_rule(st, line, loc, log, k),
            parse::opens_rule(st, line, loc, more, k),
        ),
{
    lemma_header(line, st.mf.vars, loc, log, more, k);
    if let Ok(p) = rules::header(line, st.mf.vars, loc, log, k) {
        lemma_asked(log, more, p.1);
    }
}

// ── Makefiles ───────────────────────────────────────────────────────────────

proof fn lemma_read_one_other(
    name: Seq<char>,
    silent: bool,
    loc: LocView,
    st: StateView,
    open: Seq<Seq<char>>,
    d: nat,
    e: nat,
    log: Seq<AnswerView>,
    more: Seq<AnswerView>,
    k: nat,
)
    requires
        goes_on(log, more),
        k <= log.len(),
        log.len() - k <= d,
        more.len() - k <= e,
    ensures
        gentle(
            log,
            k,
            parse::read_one_other(name, silent, loc, st, open, d, log, k),
            parse::read_one_other(name, silent, loc, st, open, e, more, k),
        ),
    decreases d, 0int, 0int,
{
    lemma_located(name, st.mf.include_dirs, log, more, k);
    if let Ok(p) = parse::located(name, st.mf.include_dirs, log, k) {
        lemma_asked(log, more, p.1);
        if let Ok(a) = world::asked(log, p.1, QueryView::ReadFile(p.0)) {
            if let AnswerView::Text(src) = a.0 {
                let mf = parse::noted(st.mf, p.0);
                if !parse::is_open(open, p.0) {
                    lemma_source(
                        src,
                        p.0,
                        mf,
                        seq![],
                        open.push(p.0),
                        (d - 1) as nat,
                        (e - 1) as nat,
                        log,
                        more,
                        a.1,
                    );
                }
            }
        }
    }
}

proof fn lemma_read_others(
    names: Seq<Seq<char>>,
    j: int,
    silent: bool,
    loc: LocView,
    st: StateView,
    open: Seq<Seq<char>>,
    d: nat,
    e: nat,
    log: Seq<AnswerView>,
    more: Seq<AnswerView>,
    k: nat,
)
    requires
        goes_on(log, more),
        k <= log.len(),
        log.len() - k <= d,
        more.len() - k <= e,
    ensures
        gentle(
            log,
            k,
            parse::read_others(names, j, silent, loc, st, open, d, log, k),
            parse::read_others(names, j, silent, loc, st, open, e, more, k),
        ),
    decreases d, 1int, names.len() - j,
{
    if 0 <= j < names.len() {
        lemma_read_one_other(names[j], silent, loc, st, open, d, e, log, more, k);
        if let Ok(p) = parse::read_one_other(names[j], silent, loc, st, open, d, log, k) {
            lemma_read_others(names, j + 1, silent, loc, p.0, open, d, e, log, more, p.1);
        }
    }
}

proof fn lemma_directive(
    line: Seq<char>,
    loc: LocView,
    st: StateView,
    open: Seq<Seq<char>>,
    d: nat,
    e: nat,
    log: Seq<AnswerView>,
    more: Seq<AnswerView>,
    k: nat,
)
    requires
        goes_on(log, more),
        k <= log.len(),
        log.len() - k <= d,
        more.len() - k <= e,
    ensures
        gentle(
            log,
            k,
            parse::directive(line, loc, st, open, d, log, k),
            parse::directive(line, loc, st, open, e, more, k),
        ),
    decreases d, 2int, 0int,
{
    let vars = st.mf.vars;
    if lines::is_directive(line, "export"@) {
        lemma_after_export(vars, lines::directive_rest(line, "export"@), loc, log, more, k);
    } else if lines::is_directive(line, "unexport"@) {
        let rest = lines::directive_rest(line, "unexport"@);
        lemma_exported_names(vars, rest, false, loc, log, more, k);
    } else if lines::is_directive(line, "undefine"@) {
        lemma_after_undefine(vars, lines::directive_rest(line, "undefine"@), loc, log, more, k);
    } else if lines::is_directive(line, "define"@) {
        let h = lines::define_header(lines::directive_rest(line, "define"@));
        lemma_in_makefile(h.0, vars, loc, log, more, k);
    } else if let Some(others) = parse::reads_others(line) {
        lemma_in_makefile(text::trim(others.0), vars, loc, log, more, k);
        if let Ok(p) = assign::in_makefile(text::trim(others.0), vars, loc, log, k) {
            let names = text::words(p.0);
            lemma_read_others(names, 0, others.1, loc, st, open, d, e, log, more, p.1);
        }
    } else if lines::is_directive(line, "override"@) {
        let rest = text::trim(lines::directive_rest(line, "override"@));
        lemma_assigned(vars, rest, Origin::Override, loc, log, more, k);
    } else if lines::assigns(line, 0, 0) {
        lemma_assigned(vars, line, Origin::File, loc, log, more, k);
    } else {
        lemma_opens_rule(st, line, loc, log, more, k);
    }
}

proof fn lemma_plain_line(
    line: Seq<char>,
    loc: LocView,
    st: StateView,
    open: Seq<Seq<char>>,
    d: nat,
    e: nat,
    log: Seq<AnswerView>,
    more: Seq<AnswerView>,
    k: nat,
)
    requires
        goes_on(log, more),
        k <= log.len(),
        log.len() - k <= d,
        more.len() - k <= e,
    ensures
        gentle(
            log,
            k,
            parse::plain_line(line, loc, st, open, d, log, k),
            parse::plain_line(line, loc, st, open, e, more, k),
        ),
    decreases d, 2int, 1int,
{
    match conditions::conditional(line) {
        Some(c) => {
            lemma_after_conditional(st.conds, c.0, c.1, st.mf.vars, loc, log, more, k);
        },
        None => {
            lemma_directive(line, loc, st, open, d, e, log, more, k);
        },
    }
}

proof fn lemma_step(
    l: LogicalLineView,
    file: Seq<char>,
    st: StateView,
    open: Seq<Seq<char>>,
    d: nat,
    e: nat,
    log: Seq<AnswerView>,
    more: Seq<AnswerView>,
    k: nat,
)
    requires
        goes_on(log, more),
        k <= log.len(),
        log.len() - k <= d,
        more.len() - k <= e,
    ensures
        gentle(
            log,
            k,
            parse::step(l, file, st, open, d, log, k),
            parse::step(l, file, st, open, e, more, k),
        ),
    decreases d, 2int, 2int,
{
    if let Some(def) = st.define {
        let body = text::join(def.lines, "\n"@);
        let loc = LocView { file, line: l.line };
        let vars = st.mf.vars;
        lemma_assigned_named(vars, def.name, def.flavor, body, def.origin, loc, log, more, k);
    } else {
        lemma_closed_rule(st, log, more, k);
        if let Ok(p) = parse::closed_rule(st, log, k) {
            let loc = LocView { file, line: l.line };
            lemma_plain_line(text::trim(l.text), loc, p.0, open, d, e, log, more, p.1);
        }
    }
}

proof fn lemma_run_lines(
    all: Seq<LogicalLineView>,
    j: int,
    file: Seq<char>,
    st: StateView,
    open: Seq<Seq<char>>,
    d: nat,
    e: nat,
    log: Seq<AnswerView>,
    more: Seq<AnswerView>,
    k: nat,
)
    requires
        goes_on(log, more),
        k <= log.len(),
        log.len() - k <= d,
        more.len() - k <= e,
    ensures
        gentle(
            log,
            k,
            parse::run(all, j, file, st, open, d, log, k),
            parse::run(all, j, file, st, open, e, more, k),
        ),
    decreases d, 3int, all.len() - j,
{
    if 0 <= j < all.len() {
        lemma_step(all[j], file, st, open, d, e, log, more, k);
        if let Ok(p) = parse::step(all[j], file, st, open, d, log, k) {
            lemma_run_lines(all, j + 1, file, p.0, open, d, e, log, more, p.1);
        }
    }
}

/// What reading a makefile gave stays as it is whatever answers come later, and
/// with whatever bound that is no less than the number of answers left; and
/// reading changes nothing outside, except through `$(shell …)`.
pub proof fn lemma_source(
    src: Seq<char>,
    file: Seq<char>,
    mf: MakefileView,
    conds: Seq<CondFrame>,
    open: Seq<Seq<char>>,
    d: nat,
    e: nat,
    log: Seq<AnswerView>,
    more: Seq<AnswerView>,
    k: nat,
)
    requires
        goes_on(log, more),
        k <= log.len(),
        log.len() - k <= d,
        more.len() - k <= e,
    ensures
        gentle(
            log,
            k,
            parse::source(src, file, mf, conds, open, d, log, k),
            parse::source(src, file, mf, conds, open, e, more, k),
        ),
    decreases d, 4int, 0int,
{
    let st = StateView { mf, conds, define: None, rule: None };
    let all = reader::logical_lines(src);
    lemma_run_lines(all, 0, file, st, open, d, e, log, more, k);
    if let Ok(p) = parse::run(all, 0, file, st, open, d, log, k) {
        lemma_closed_rule(p.0, log, more, p.1);
    }
}

proof fn lemma_with_files(
    mf: MakefileView,
    list: Seq<Seq<char>>,
    i: int,
    log: Seq<AnswerView>,
    more: Seq<AnswerView>,
    k: nat,
)
    requires
        goes_on(log, more),
        k <= log.len(),
    ensures
        gentle(
            log,
            k,
            load::with_files(mf, list, i, log, k),
            load::with_files(mf, list, i, more, k),
        ),
    decreases list.len() - i,
{
    if 0 <= i < list.len() {
        let path = list[i];
        let d = log.len();
        let e = more.len();
        let noted = parse::noted(mf, path);
        lemma_asked(log, more, k);
        if k < log.len() {
            if let AnswerView::Text(src) = log[k as int] {
                if path == "-"@ {
                    lemma_source(src, "<stdin>"@, mf, seq![], seq![], d, e, log, more, k + 1);
                } else {
                    lemma_source(src, path, noted, seq![], seq![path], d, e, log, more, k + 1);
                }
            }
        }
        let read = if path == "-"@ {
            load::with_input(mf, log, k)
        } else {
            load::with_file(mf, path, log, k)
        };
        if let Ok(p) = read {
            lemma_with_files(p.0, list, i + 1, log, more, p.1);
        }
    }
}

proof fn lemma_all_there(
    list: Seq<Seq<char>>,
    i: int,
    log: Seq<AnswerView>,
    more: Seq<AnswerView>,
    k: nat,
)
    requires
        goes_on(log, more),
        k <= log.len(),
    ensures
        gentle(log, k, load::all_there(list, i, log, k), load::all_there(list, i, more, k)),
    decreases list.len() - i,
{
    if 0 <= i < list.len() {
        lemma_asked(log, more, k);
        if list[i] == "-"@ {
            lemma_all_there(list, i + 1, log, more, k);
        } else if k < log.len() {
            lemma_all_there(list, i + 1, log, more, k + 1);
        }
    }
}

proof fn lemma_makefiles_for(
    asked_for: Seq<Seq<char>>,
    log: Seq<AnswerView>,
    more: Seq<AnswerView>,
    k: nat,
)
    requires
        goes_on(log, more),
        k <= log.len(),
    ensures
        gentle(
            log,
            k,
            load::makefiles_for(asked_for, log, k),
            load::makefiles_for(asked_for, more, k),
        ),
{
    lemma_all_there(asked_for, 0, log, more, k);
    lemma_asked(log, more, k);
    if k < log.len() {
        lemma_asked(log, more, k + 1);
    }
    if k + 1 < log.len() {
        lemma_asked(log, more, k + 2);
    }
}

/// What loading makefiles gave stays as it is whatever answers come later; and
/// loading changes nothing outside, except through `$(shell …)`.
pub proof fn lemma_loaded(
    list: Seq<Seq<char>>,
    start: MakefileView,
    log: Seq<AnswerView>,
    more: Seq<AnswerView>,
    k: nat,
)
    requires
        goes_on(log, more),
        k <= log.len(),
    ensures
        gentle(log, k, load::loaded(list, start, log, k), load::loaded(list, start, more, k)),
{
    lemma_with_files(start, list, 0, log, more, k);
}

// ── The graph ───────────────────────────────────────────────────────────────

proof fn lemma_outdated(
    g: GraphView,
    names: Seq<Seq<char>>,
    j: int,
    tm: i128,
    log: Seq<AnswerView>,
    more: Seq<AnswerView>,
    k: nat,
)
    requires
        goes_on(log, more),
        k <= log.len(),
    ensures
        gentle(
            log,
            k,
            graph::outdated(g, names, j, tm, log, k),
            graph::outdated(g, names, j, tm, more, k),
        ),
    decreases names.len() - j,
{
    if 0 <= j < names.len() {
        lemma_asked(log, more, k);
        if let Ok(p) = graph::mtime_of(g, names[j], log, k) {
            lemma_outdated(p.0.1, names, j + 1, tm, log, more, p.1);
        }
    }
}

/// Whether a target is stale stays as it was found whatever answers come later,
/// and finding out changes nothing outside.
pub proof fn lemma_stale(
    g: GraphView,
    target: Seq<char>,
    log: Seq<AnswerView>,
    more: Seq<AnswerView>,
    k: nat,
)
    requires
        goes_on(log, more),
        k <= log.len(),
    ensures
        gentle(log, k, graph::stale(g, target, log, k), graph::stale(g, target, more, k)),
{
    lemma_asked(log, more, k);
    if let Ok(p) = graph::mtime_of(g, target, log, k) {
        if let Some(tm) = p.0.0 {
            let names = graph::normal_names(graph::all_prereqs(p.0.1.at(target)));
            lemma_outdated(p.0.1, names, 0, tm, log, more, p.1);
        }
    }
}

proof fn lemma_all_exist(
    prereqs: Seq<Seq<char>>,
    j: int,
    stem: Seq<char>,
    log: Seq<AnswerView>,
    more: Seq<AnswerView>,
    k: nat,
)
    requires
        goes_on(log, more),
        k <= log.len(),
    ensures
        gentle(
            log,
            k,
            graph::all_exist(prereqs, j, stem, log, k),
            graph::all_exist(prereqs, j, stem, more, k),
        ),
    decreases prereqs.len() - j,
{
    if 0 <= j < prereqs.len() {
        lemma_asked(log, more, k);
        if k < log.len() {
            lemma_all_exist(prereqs, j + 1, stem, log, more, k + 1);
        }
    }
}

proof fn lemma_can_build(
    list: Seq<PatternRuleView>,
    builtin: bool,
    i: int,
    target: Seq<char>,
    log: Seq<AnswerView>,
    more: Seq<AnswerView>,
    k: nat,
)
    requires
        goes_on(log, more),
        k <= log.len(),
    ensures
        gentle(
            log,
            k,
            graph::can_build(list, builtin, i, target, log, k),
            graph::can_build(list, builtin, i, target, more, k),
        ),
    decreases graph::others_left(builtin), list.len() - i,
{
    if i < 0 || i >= list.len() {
        if !builtin {
            lemma_can_build(list, true, 0, target, log, more, k);
        }
    } else if list[i].is_builtin != builtin {
        lemma_can_build(list, builtin, i + 1, target, log, more, k);
    } else {
        match rule::stem(target, list[i].target) {
            None => {
                lemma_can_build(list, builtin, i + 1, target, log, more, k);
            },
            Some(s) => {
                lemma_all_exist(list[i].prereqs, 0, s, log, more, k);
                if let Ok(p) = graph::all_exist(list[i].prereqs, 0, s, log, k) {
                    lemma_can_build(list, builtin, i + 1, target, log, more, p.1);
                }
            },
        }
    }
}

proof fn lemma_all_satisfiable(
    g: GraphView,
    i: int,
    j: int,
    stem: Seq<char>,
    log: Seq<AnswerView>,
    more: Seq<AnswerView>,
    k: nat,
)
    requires
        goes_on(log, more),
        k <= log.len(),
    ensures
        gentle(
            log,
            k,
            graph::all_satisfiable(g, i, j, stem, log, k),
            graph::all_satisfiable(g, i, j, stem, more, k),
        ),
    decreases g.pattern_rules[i].prereqs.len() - j,
{
    let prereqs = g.pattern_rules[i].prereqs;
    if 0 <= j < prereqs.len() {
        let builtin = g.pattern_rules[i].is_builtin;
        let name = rule::applied(prereqs[j], stem);
        lemma_asked(log, more, k);
        if k < log.len() {
            lemma_all_satisfiable(g, i, j + 1, stem, log, more, k + 1);
            lemma_can_build(g.pattern_rules, builtin, i + 1, name, log, more, k + 1);
            if let Ok(p) = graph::can_build(g.pattern_rules, builtin, i + 1, name, log, k + 1) {
                lemma_all_satisfiable(g, i, j + 1, stem, log, more, p.1);
            }
        }
    }
}

proof fn lemma_applicable(
    g: GraphView,
    target: Seq<char>,
    builtin: bool,
    i: int,
    log: Seq<AnswerView>,
    more: Seq<AnswerView>,
    k: nat,
)
    requires
        goes_on(log, more),
        k <= log.len(),
    ensures
        gentle(
            log,
            k,
            graph::applicable(g, target, builtin, i, log, k),
            graph::applicable(g, target, builtin, i, more, k),
        ),
    decreases graph::others_left(builtin), g.pattern_rules.len() - i,
{
    if i < 0 || i >= g.pattern_rules.len() {
        if !builtin {
            lemma_applicable(g, target, true, 0, log, more, k);
        }
    } else if g.pattern_rules[i].is_builtin != builtin {
        lemma_applicable(g, target, builtin, i + 1, log, more, k);
    } else {
        match rule::stem(target, g.pattern_rules[i].target) {
            None => {
                lemma_applicable(g, target, builtin, i + 1, log, more, k);
            },
            Some(s) => {
                lemma_all_satisfiable(g, i, 0, s, log, more, k);
                if let Ok(p) = graph::all_satisfiable(g, i, 0, s, log, k) {
                    lemma_applicable(g, target, builtin, i + 1, log, more, p.1);
                }
            },
        }
    }
}

pub proof fn lemma_all_resolved(
    g: GraphView,
    order: Seq<Seq<char>>,
    i: int,
    log: Seq<AnswerView>,
    more: Seq<AnswerView>,
    k: nat,
)
    requires
        goes_on(log, more),
        k <= log.len(),
    ensures
        gentle(
            log,
            k,
            exec::all_resolved(g, order, i, log, k),
            exec::all_resolved(g, order, i, more, k),
        ),
    decreases order.len() - i,
{
    if 0 <= i < order.len() {
        lemma_applicable(g, order[i], false, 0, log, more, k);
        if let Ok(p) = graph::resolved(g, order[i], log, k) {
            lemma_all_resolved(p.0.1, order, i + 1, log, more, p.1);
        }
    }
}

proof fn lemma_applicable_asks(
    g: GraphView,
    target: Seq<char>,
    builtin: bool,
    i: int,
    log: Seq<AnswerView>,
    k: nat,
)
    requires
        k <= log.len(),
        0 <= i,
    ensures
        graph::applicable(g, target, builtin, i, log, k) matches Ok(p) ==> (p.0 matches Some(found)
            ==> p.1 > k || g.pattern_rules[found.0].prereqs.len() == 0),
    decreases graph::others_left(builtin), g.pattern_rules.len() - i,
{
    if i >= g.pattern_rules.len() {
        if !builtin {
            lemma_applicable_asks(g, target, true, 0, log, k);
        }
    } else if g.pattern_rules[i].is_builtin != builtin {
        lemma_applicable_asks(g, target, builtin, i + 1, log, k);
    } else {
        match rule::stem(target, g.pattern_rules[i].target) {
            None => {
                lemma_applicable_asks(g, target, builtin, i + 1, log, k);
            },
            Some(s) => {
                assert(log.take(log.len() as int) =~= log);
                lemma_all_satisfiable(g, i, 0, s, log, log, k);
                if g.pattern_rules[i].prereqs.len() > 0 && k < log.len() {
                    lemma_first_asked(g, i, s, log, k);
                }
                if let Ok(p) = graph::all_satisfiable(g, i, 0, s, log, k) {
                    lemma_applicable_asks(g, target, builtin, i + 1, log, p.1);
                    lemma_applicable(g, target, builtin, i + 1, log, log, p.1);
                }
            },
        }
    }
}

proof fn lemma_first_asked(
    g: GraphView,
    i: int,
    stem: Seq<char>,
    log: Seq<AnswerView>,
    k: nat,
)
    requires
        k < log.len(),
        g.pattern_rules[i].prereqs.len() > 0,
    ensures
        graph::all_satisfiable(g, i, 0, stem, log, k) matches Ok(p) ==> p.1 > k,
{
    assert(log.take(log.len() as int) =~= log);
    let builtin = g.pattern_rules[i].is_builtin;
    let name = rule::applied(g.pattern_rules[i].prereqs[0], stem);
    lemma_all_satisfiable(g, i, 1, stem, log, log, k + 1);
    lemma_can_build(g.pattern_rules, builtin, i + 1, name, log, log, k + 1);
    if let Ok(p) = graph::can_build(g.pattern_rules, builtin, i + 1, name, log, k + 1) {
        lemma_all_satisfiable(g, i, 1, stem, log, log, p.1);
    }
}

/// Looking for implicit rules without an answer brings in no targets: the build
/// order stays as it was.
pub proof fn lemma_nothing_new(
    g: GraphView,
    goals: Seq<Seq<char>>,
    list: Seq<Seq<char>>,
    i: int,
    log: Seq<AnswerView>,
    k: nat,
)
    requires
        g.entries.dom().finite(),
        k <= log.len(),
    ensures
        exec::all_resolved(g, list, i, log, k) matches Ok(p) ==> (p.1 == k ==> graph::topo(
            p.0,
            goals,
        ) == graph::topo(g, goals)),
    decreases list.len() - i,
{
    if 0 <= i < list.len() {
        let target = list[i];
        assert(log.take(log.len() as int) =~= log);
        lemma_applicable(g, target, false, 0, log, log, k);
        lemma_applicable_asks(g, target, false, 0, log, k);
        if let Ok(p) = graph::resolved(g, target, log, k) {
            let h = p.0.1;
            lemma_all_resolved(h, list, i + 1, log, log, p.1);
            if p.1 == k {
                lemma_needs_stay(g, target, log, k);
                graph::lemma_same_order(g, h, goals);
                lemma_nothing_new(h, goals, list, i + 1, log, k);
            }
        }
    }
}

proof fn lemma_needs_stay(g: GraphView, target: Seq<char>, log: Seq<AnswerView>, k: nat)
    requires
        g.entries.dom().finite(),
        k <= log.len(),
    ensures
        graph::resolved(g, target, log, k) matches Ok(p) ==> p.0.1.entries.dom().finite() && (p.1
            == k ==> graph::same_needs(g.entries, p.0.1.entries)),
{
    lemma_applicable_asks(g, target, false, 0, log, k);
    if let Ok(p) = graph::applicable(g, target, false, 0, log, k) {
        if let Some(found) = p.0 {
            let e = g.at(target);
            let r = g.pattern_rules[found.0];
            let f = graph::with_rule(e, r, found.0, found.1);
            if p.1 == k {
                assert(graph::rule_prereqs(r, found.1).len() == 0);
                assert(f.prereqs == e.prereqs);
                assert(graph::all_prereqs(f) == graph::all_prereqs(e));
            }
        }
    }
}

pub proof fn lemma_planned(
    g: GraphView,
    goals: Seq<Seq<char>>,
    done: Seq<Seq<char>>,
    log: Seq<AnswerView>,
    more: Seq<AnswerView>,
    k: nat,
)
    requires
        goes_on(log, more),
        k <= log.len(),
    ensures
        gentle(
            log,
            k,
            exec::planned(g, goals, done, log, k),
            exec::planned(g, goals, done, more, k),
        ),
    decreases log.len() - k,
{
    let order = graph::topo(g, goals).order;
    let fresh = exec::unlisted(order, done, order.len() as int);
    lemma_all_resolved(g, fresh, 0, log, more, k);
    if let Ok(p) = exec::all_resolved(g, fresh, 0, log, k) {
        if k < p.1 && p.1 <= log.len() {
            lemma_planned(p.0, goals, done + fresh, log, more, p.1);
        }
    }
}

pub proof fn lemma_circles_told(
    dropped: Seq<(Seq<char>, Seq<char>)>,
    i: int,
    log: Seq<AnswerView>,
    more: Seq<AnswerView>,
    k: nat,
)
    requires
        goes_on(log, more),
        k <= log.len(),
    ensures
        gentle(
            log,
            k,
            exec::circles_told(dropped, i, log, k),
            exec::circles_told(dropped, i, more, k),
        ),
    decreases dropped.len() - i,
{
    if 0 <= i < dropped.len() {
        lemma_asked(log, more, k);
        if k < log.len() {
            lemma_circles_told(dropped, i + 1, log, more, k + 1);
        }
    }
}

// ── Building ────────────────────────────────────────────────────────────────

proof fn lemma_command_run(
    x: ExecView,
    line: RecipeLineView,
    cmd: Seq<char>,
    target: Seq<char>,
    loc: LocView,
    log: Seq<AnswerView>,
    more: Seq<AnswerView>,
    k: nat,
)
    requires
        goes_on(log, more),
        k <= log.len(),
    ensures
        steady(
            log,
            k,
            exec::command_run(x, line, cmd, target, loc, log, k),
            exec::command_run(x, line, cmd, target, loc, more, k),
        ),
{
    lemma_asked(log, more, k);
    let m: nat = if line.silent || x.args.silent {
        k
    } else {
        k + 1
    };
    if m <= log.len() {
        lemma_value("SHELL"@, x.vars, loc, log, more, m);
        if let Ok(q) = exec::shell_of(x.vars, loc, log, m) {
            lemma_asked(log, more, q.1);
            if q.1 < log.len() {
                lemma_asked(log, more, q.1 + 1);
            }
        }
    }
}

pub proof fn lemma_recipe_run(
    x: ExecView,
    recipe: Seq<RecipeLineView>,
    i: int,
    auto: AutoView,
    target: Seq<char>,
    loc: LocView,
    log: Seq<AnswerView>,
    more: Seq<AnswerView>,
    k: nat,
)
    requires
        goes_on(log, more),
        k <= log.len(),
    ensures
        steady(
            log,
            k,
            exec::recipe_run(x, recipe, i, auto, target, loc, log, k),
            exec::recipe_run(x, recipe, i, auto, target, loc, more, k),
        ),
    decreases recipe.len() - i,
{
    if 0 <= i < recipe.len() {
        lemma_expansion(recipe[i].text, x.vars, Some(auto), loc, false, log, more, k);
        if let Ok(p) = expand::expansion(
            recipe[i].text,
            x.vars,
            Some(auto),
            loc,
            false,
            log,
            k,
        ) {
            let cmd = exec::own_path(p.0, x.program);
            lemma_command_run(x, recipe[i], cmd, target, loc, log, more, p.1);
            if let Ok(q) = exec::command_run(x, recipe[i], cmd, target, loc, log, p.1) {
                lemma_recipe_run(x, recipe, i + 1, auto, target, loc, log, more, q.1);
            }
        }
    }
}

proof fn lemma_newer_than(
    list: Seq<Seq<char>>,
    i: int,
    tm: i128,
    log: Seq<AnswerView>,
    more: Seq<AnswerView>,
    k: nat,
)
    requires
        goes_on(log, more),
        k <= log.len(),
    ensures
        gentle(
            log,
            k,
            exec::newer_than(list, i, tm, log, k),
            exec::newer_than(list, i, tm, more, k),
        ),
    decreases list.len() - i,
{
    if 0 <= i < list.len() {
        lemma_asked(log, more, k);
        if k < log.len() {
            lemma_newer_than(list, i + 1, tm, log, more, k + 1);
        }
    }
}

pub proof fn lemma_newer_prereqs(
    target: Seq<char>,
    list: Seq<Seq<char>>,
    log: Seq<AnswerView>,
    more: Seq<AnswerView>,
    k: nat,
)
    requires
        goes_on(log, more),
        k <= log.len(),
    ensures
        gentle(
            log,
            k,
            exec::newer_prereqs(target, list, log, k),
            exec::newer_prereqs(target, list, more, k),
        ),
{
    lemma_asked(log, more, k);
    if let Ok(p) = exec::time_now(target, log, k) {
        if let Some(tm) = p.0 {
            lemma_newer_than(list, 0, tm, log, more, p.1);
        }
    }
}

proof fn lemma_touched(
    x: ExecView,
    target: Seq<char>,
    log: Seq<AnswerView>,
    more: Seq<AnswerView>,
    k: nat,
)
    requires
        goes_on(log, more),
        k <= log.len(),
    ensures
        steady(log, k, exec::touched(x, target, log, k), exec::touched(x, target, more, k)),
{
    lemma_asked(log, more, k);
    if k < log.len() {
        lemma_asked(log, more, k + 1);
    }
    if k + 1 < log.len() {
        lemma_asked(log, more, k + 2);
    }
}

proof fn lemma_double_run(
    x: ExecView,
    list: Seq<RuleView>,
    j: int,
    held: Option<ErrorView>,
    target: Seq<char>,
    log: Seq<AnswerView>,
    more: Seq<AnswerView>,
    k: nat,
)
    requires
        goes_on(log, more),
        k <= log.len(),
    ensures
        steady(
            log,
            k,
            exec::double_run(x, list, j, held, target, log, k),
            exec::double_run(x, list, j, held, target, more, k),
        ),
    decreases list.len() - j,
{
    if 0 <= j < list.len() {
        let names = rules::names_of(list[j].prereqs);
        let auto = exec::auto_for(target, names, seq![], names, seq![]);
        let loc = list[j].loc;
        lemma_recipe_run(x, list[j].recipe, 0, auto, target, loc, log, more, k);
        let r = exec::recipe_run(x, list[j].recipe, 0, auto, target, loc, log, k);
        if let Ok(p) = world::caught(r) {
            lemma_asked(log, more, p.1);
            let now = if x.args.ignore_errors || p.0 is None {
                held
            } else {
                p.0
            };
            lemma_double_run(x, list, j + 1, now, target, log, more, p.1);
            if p.1 < log.len() {
                lemma_double_run(x, list, j + 1, now, target, log, more, p.1 + 1);
            }
        }
    }
}

proof fn lemma_rebuilt(
    x: ExecView,
    g: GraphView,
    target: Seq<char>,
    log: Seq<AnswerView>,
    more: Seq<AnswerView>,
    k: nat,
)
    requires
        goes_on(log, more),
        k <= log.len(),
    ensures
        steady(
            log,
            k,
            exec::rebuilt(x, g, target, log, k),
            exec::rebuilt(x, g, target, more, k),
        ),
{
    let e = g.at(target);
    let place = exec::recipe_place(e, target);
    lemma_touched(x, target, log, more, k);
    lemma_asked(log, more, k);
    if e.dc_rules.len() > 0 {
        lemma_double_run(x, e.dc_rules, 0, None, target, log, more, k);
    } else if e.recipe.len() == 0 && exec::has_rule(e) {
    } else if e.recipe.len() == 0 {
        if let Some(recipe) = g.default_recipe {
            let auto = exec::auto_for(target, seq![], seq![], seq![], seq![]);
            lemma_recipe_run(x, recipe, 0, auto, target, place, log, more, k);
        }
    } else {
        let normal = graph::normal_names(e.prereqs);
        lemma_newer_prereqs(target, normal, log, more, k);
        if let Ok(p) = exec::newer_prereqs(target, normal, log, k) {
            let stem = match e.stem {
                Some(s) => s,
                None => seq![],
            };
            let others = graph::order_only_names(e.prereqs);
            let auto = exec::auto_for(target, normal, others, p.0, stem);
            lemma_touched(x, target, log, more, p.1);
            lemma_recipe_run(x, e.recipe, 0, auto, target, place, log, more, p.1);
        }
    }
}

pub proof fn lemma_built(
    x: ExecView,
    g: GraphView,
    target: Seq<char>,
    log: Seq<AnswerView>,
    more: Seq<AnswerView>,
    k: nat,
)
    requires
        goes_on(log, more),
        k <= log.len(),
    ensures
        steady(log, k, exec::built(x, g, target, log, k), exec::built(x, g, target, more, k)),
{
    lemma_stale(g, target, log, more, k);
    if let Ok(p) = graph::stale(g, target, log, k) {
        lemma_rebuilt(x, p.0.1, target, log, more, p.1);
    }
}

proof fn lemma_all_built(
    x: ExecView,
    g: GraphView,
    order: Seq<Seq<char>>,
    i: int,
    failed: Seq<Seq<char>>,
    outdated: bool,
    log: Seq<AnswerView>,
    more: Seq<AnswerView>,
    k: nat,
)
    requires
        goes_on(log, more),
        k <= log.len(),
    ensures
        steady(
            log,
            k,
            exec::all_built(x, g, order, i, failed, outdated, log, k),
            exec::all_built(x, g, order, i, failed, outdated, more, k),
        ),
    decreases order.len() - i,
{
    if i < 0 || i >= order.len() {
    } else if exec::blocked(g.at(order[i]), failed) {
        lemma_all_built(x, g, order, i + 1, failed.push(order[i]), outdated, log, more, k);
    } else {
        lemma_built(x, g, order[i], log, more, k);
        if let Ok(p) = exec::built(x, g, order[i], log, k) {
            let h = p.0.1;
            match p.0.0 {
                BuildResultView::Failed(e) => {
                    lemma_asked(log, more, p.1);
                    if p.1 < log.len() {
                        lemma_all_built(
                            x,
                            h,
                            order,
                            i + 1,
                            failed.push(order[i]),
                            outdated,
                            log,
                            more,
                            p.1 + 1,
                        );
                    }
                },
                BuildResultView::OutOfDate => {
                    lemma_all_built(x, h, order, i + 1, failed, true, log, more, p.1);
                },
                _ => {
                    lemma_all_built(x, h, order, i + 1, failed, outdated, log, more, p.1);
                },
            }
        }
    }
}

/// What came of building stays as it is whatever answers come later: commands
/// that were run are not run again in another order, and none is taken back.
pub proof fn lemma_goals_built(
    x: ExecView,
    g: GraphView,
    goals: Seq<Seq<char>>,
    log: Seq<AnswerView>,
    more: Seq<AnswerView>,
    k: nat,
)
    requires
        goes_on(log, more),
        k <= log.len(),
    ensures
        steady(
            log,
            k,
            exec::goals_built(x, g, goals, log, k),
            exec::goals_built(x, g, goals, more, k),
        ),
{
    reveal(exec::goals_built);
    lemma_planned(g, goals, seq![], log, more, k);
    if let Ok(p) = exec::planned(g, goals, seq![], log, k) {
        let w = p.0.1;
        lemma_circles_told(w.dropped, 0, log, more, p.1);
        if let Ok(q) = exec::circles_told(w.dropped, 0, log, p.1) {
            lemma_all_built(x, p.0.0, w.order, 0, seq![], false, log, more, q.1);
        }
    }
}

// ── Runs ────────────────────────────────────────────────────────────────────

proof fn lemma_directory_told(
    a: ArgsView,
    depth: nat,
    verb: Seq<char>,
    log: Seq<AnswerView>,
    more: Seq<AnswerView>,
    k: nat,
)
    requires
        goes_on(log, more),
        k <= log.len(),
    ensures
        gentle(
            log,
            k,
            run::directory_told(a, depth, verb, log, k),
            run::directory_told(a, depth, verb, more, k),
        ),
{
    lemma_asked(log, more, k);
    if k < log.len() {
        lemma_asked(log, more, k + 1);
    }
}

proof fn lemma_lines_shown(
    list: Seq<Seq<char>>,
    i: int,
    log: Seq<AnswerView>,
    more: Seq<AnswerView>,
    k: nat,
)
    requires
        goes_on(log, more),
        k <= log.len(),
    ensures
        gentle(log, k, run::lines_shown(list, i, log, k), run::lines_shown(list, i, more, k)),
    decreases list.len() - i,
{
    if 0 <= i < list.len() {
        lemma_asked(log, more, k);
        if k < log.len() {
            lemma_lines_shown(list, i + 1, log, more, k + 1);
        }
    }
}

proof fn lemma_built_in_directory(
    a: ArgsView,
    depth: nat,
    x: ExecView,
    g: GraphView,
    goals: Seq<Seq<char>>,
    log: Seq<AnswerView>,
    more: Seq<AnswerView>,
    k: nat,
)
    requires
        goes_on(log, more),
        k <= log.len(),
    ensures
        steady(
            log,
            k,
            run::built_in_directory(a, depth, x, g, goals, log, k),
            run::built_in_directory(a, depth, x, g, goals, more, k),
        ),
{
    lemma_directory_told(a, depth, "Entering"@, log, more, k);
    if let Ok(p) = run::directory_told(a, depth, "Entering"@, log, k) {
        lemma_goals_built(x, g, goals, log, more, p.1);
        if let Ok(q) = exec::goals_built(x, g, goals, log, p.1) {
            lemma_directory_told(a, depth, "Leaving"@, log, more, q.1);
        }
    }
}

proof fn lemma_carried_out(
    mf: MakefileView,
    a: ArgsView,
    depth: nat,
    program: Seq<char>,
    log: Seq<AnswerView>,
    more: Seq<AnswerView>,
    k: nat,
)
    requires
        goes_on(log, more),
        k <= log.len(),
    ensures
        steady(
            log,
            k,
            run::carried_out(mf, a, depth, program, log, k),
            run::carried_out(mf, a, depth, program, more, k),
        ),
{
    if a.print_db {
        lemma_lines_shown(database::database(mf), 0, log, more, k);
    } else {
        lemma_value(".DEFAULT_GOAL"@, mf.vars, makefile::goal_place(), log, more, k);
        if let Ok(p) = run::goals_of(a, mf, log, k) {
            let m = run::with_goals(mf, p.0);
            let x = run::executor_of(m, a, depth, program);
            lemma_built_in_directory(a, depth, x, m.graph, p.0, log, more, p.1);
        }
    }
}

/// A run that has come to its end with some answers comes to the same end with
/// more; and where it has not, it asks only once all the answers are used. So a
/// run may be started again with each new answer: it takes the same course up to
/// the question that was answered.
pub proof fn lemma_run(
    argv: Seq<Seq<char>>,
    nproc: nat,
    env: Map<Seq<char>, Seq<char>>,
    program: Seq<char>,
    log: Seq<AnswerView>,
    more: Seq<AnswerView>,
)
    requires
        goes_on(log, more),
    ensures
        steady(
            log,
            0,
            run::run_of(argv, nproc, env, program, log, 0),
            run::run_of(argv, nproc, env, program, more, 0),
        ),
{
    if let Ok(a) = args::parsed_args(argv, nproc) {
        lemma_asked(log, more, 0);
        if let Ok(p) = run::moved(a, log, 0) {
            lemma_makefiles_for(a.makefiles, log, more, p.1);
            if let Ok(q) = load::makefiles_for(a.makefiles, log, p.1) {
                lemma_asked(log, more, q.1);
                if let Ok(d) = world::asked(log, q.1, QueryView::WorkDir) {
                    let start = load::initial(
                        makefile::empty_makefile(),
                        a,
                        env,
                        program,
                        world::text_in(d.0),
                    );
                    lemma_loaded(q.0, start, log, more, d.1);
                    if let Ok(m) = load::loaded(q.0, start, log, d.1) {
                        lemma_carried_out(
                            run::overridden(m.0, a, env),
                            a,
                            run::level_of(env),
                            program,
                            log,
                            more,
                            m.1,
                        );
                    }
                }
            }
        }
    }
}

} // verus!
