//! Dependency graph, topological sort, and up-to-date checking.

use vstd::prelude::*;
use vstd::string::StrSliceExecFns;
use crate::error::{Loc, LocView};
use crate::names;
use crate::names::NameMap;
use crate::search::find_char;
use crate::text;
use crate::text::{chars_of, dup_all, dup_opt, has_string, owned, same_text, string_of, Dup};
use crate::world;
use crate::world::{is_yes, Answer, AnswerView, Query, QueryView, Stop, StopView, Told, Transcript};
use super::rule;
use super::rule::{
    apply_chars,
    stem_of,
    PatternRule,
    PatternRuleView,
    Prereq,
    PrereqView,
    RecipeLine,
    RecipeLineView,
    Rule,
    RuleView,
};
use super::var::{Flavor, Origin};

verus! {

/// Everything we know about a single target.
#[derive(Debug)]
pub struct TargetEntry {
    /// Explicit single-colon rules whose prerequisites are merged.
    pub prereqs: Vec<Prereq>,
    /// Recipe from the last explicit rule that supplied one.
    pub recipe: Vec<RecipeLine>,
    pub recipe_loc: Option<Loc>,
    /// Double-colon rules — run independently, in order.
    pub dc_rules: Vec<Rule>,
    /// True when the target appears in `.PHONY`.
    pub phony: bool,
    /// True when the target appears in `.PRECIOUS`.
    pub precious: bool,
    /// True when the target is an intermediate file.
    pub intermediate: bool,
    /// True when the target is `.SECONDARY` (like intermediate but not deleted).
    pub secondary: bool,
    /// Location of the first definition (for error messages).
    pub loc: Option<Loc>,
    /// When the file was last modified, once that has been asked for
    /// (`Some(None)` means that it is missing).
    pub mtime: Option<Option<i128>>,
    /// Applied stem from an implicit rule (for `$*`).
    pub stem: Option<String>,
    /// Applied pattern rule index (if found via implicit lookup).
    pub implicit_rule: Option<usize>,
    /// Whether this target was built in this run.
    pub built: bool,
    /// Target-specific variable assignments: `(name, raw_value, flavor, origin)`.
    pub target_vars: Vec<(String, String, Flavor, Origin)>,
}

pub struct EntryView {
    pub prereqs: Seq<PrereqView>,
    pub recipe: Seq<RecipeLineView>,
    pub recipe_loc: Option<LocView>,
    pub dc_rules: Seq<RuleView>,
    pub phony: bool,
    pub precious: bool,
    pub intermediate: bool,
    pub secondary: bool,
    pub loc: Option<LocView>,
    pub mtime: Option<Option<i128>>,
    pub stem: Option<Seq<char>>,
    pub implicit_rule: Option<usize>,
    pub built: bool,
    pub target_vars: Seq<(Seq<char>, Seq<char>, Flavor, Origin)>,
}

impl View for TargetEntry {
    type V = EntryView;

    open spec fn view(&self) -> EntryView {
        EntryView {
            prereqs: text::views(self.prereqs@),
            recipe: text::views(self.recipe@),
            recipe_loc: text::view_of(self.recipe_loc),
            dc_rules: text::views(self.dc_rules@),
            phony: self.phony,
            precious: self.precious,
            intermediate: self.intermediate,
            secondary: self.secondary,
            loc: text::view_of(self.loc),
            mtime: self.mtime,
            stem: text::view_of(self.stem),
            implicit_rule: self.implicit_rule,
            built: self.built,
            target_vars: text::views(self.target_vars@),
        }
    }
}

impl Dup for TargetEntry {
    fn dup(&self) -> (r: Self) {
        TargetEntry {
            prereqs: dup_all(self.prereqs.as_slice()),
            recipe: dup_all(self.recipe.as_slice()),
            recipe_loc: dup_opt(&self.recipe_loc),
            dc_rules: dup_all(self.dc_rules.as_slice()),
            phony: self.phony,
            precious: self.precious,
            intermediate: self.intermediate,
            secondary: self.secondary,
            loc: dup_opt(&self.loc),
            mtime: self.mtime,
            stem: dup_opt(&self.stem),
            implicit_rule: self.implicit_rule,
            built: self.built,
            target_vars: dup_all(self.target_vars.as_slice()),
        }
    }
}

impl Clone for TargetEntry {
    fn clone(&self) -> (r: Self)
        ensures
            r@ == self@,
    {
        self.dup()
    }
}

/// A target about which nothing has been said.
pub open spec fn fresh_entry() -> EntryView {
    EntryView {
        prereqs: seq![],
        recipe: seq![],
        recipe_loc: None,
        dc_rules: seq![],
        phony: false,
        precious: false,
        intermediate: false,
        secondary: false,
        loc: None,
        mtime: None,
        stem: None,
        implicit_rule: None,
        built: false,
        target_vars: seq![],
    }
}

impl Default for TargetEntry {
    fn default() -> (r: Self)
        ensures
            r@ == fresh_entry(),
    {
        broadcast use text::group_views;

        TargetEntry {
            prereqs: Vec::new(),
            recipe: Vec::new(),
            recipe_loc: None,
            dc_rules: Vec::new(),
            phony: false,
            precious: false,
            intermediate: false,
            secondary: false,
            loc: None,
            mtime: None,
            stem: None,
            implicit_rule: None,
            built: false,
            target_vars: Vec::new(),
        }
    }
}

impl TargetEntry {
    pub fn double_colon_exists(&self) -> (r: bool)
        ensures
            r == (self@.dc_rules.len() > 0),
    {
        self.dc_rules.len() > 0
    }
}

/// The targets and the rules.
#[derive(Debug)]
pub struct BuildGraph {
    pub entries: NameMap<TargetEntry>,
    /// `.DEFAULT` recipe (used when no rule matches a target).
    pub default_recipe: Option<Vec<RecipeLine>>,
    pub pattern_rules: Vec<PatternRule>,
    pub suffixes: Vec<String>,
    /// Archive member targets: `lib(member)` syntax.
    pub archive_members: Vec<String>,
}

pub struct GraphView {
    pub entries: Map<Seq<char>, EntryView>,
    pub default_recipe: Option<Seq<RecipeLineView>>,
    pub pattern_rules: Seq<PatternRuleView>,
    pub suffixes: Seq<Seq<char>>,
    pub archive_members: Seq<Seq<char>>,
}

impl View for BuildGraph {
    type V = GraphView;

    open spec fn view(&self) -> GraphView {
        GraphView {
            entries: self.entries@,
            default_recipe: match self.default_recipe {
                Some(r) => Some(text::views(r@)),
                None => None,
            },
            pattern_rules: text::views(self.pattern_rules@),
            suffixes: text::views(self.suffixes@),
            archive_members: text::views(self.archive_members@),
        }
    }
}

impl Dup for BuildGraph {
    fn dup(&self) -> (r: Self) {
        BuildGraph {
            entries: self.entries.dup(),
            default_recipe: match &self.default_recipe {
                Some(r) => Some(dup_all(r.as_slice())),
                None => None,
            },
            pattern_rules: dup_all(self.pattern_rules.as_slice()),
            suffixes: dup_all(self.suffixes.as_slice()),
            archive_members: dup_all(self.archive_members.as_slice()),
        }
    }
}

impl GraphView {
    pub open spec fn has(self, name: Seq<char>) -> bool {
        self.entries.dom().contains(name)
    }

    /// What is known of a target.
    pub open spec fn at(self, name: Seq<char>) -> EntryView {
        if self.has(name) {
            self.entries[name]
        } else {
            fresh_entry()
        }
    }

    pub open spec fn put(self, name: Seq<char>, e: EntryView) -> GraphView {
        GraphView { entries: self.entries.insert(name, e), ..self }
    }
}

/// A graph with nothing in it.
pub open spec fn empty_graph() -> GraphView {
    GraphView {
        entries: Map::empty(),
        default_recipe: None,
        pattern_rules: seq![],
        suffixes: seq![],
        archive_members: seq![],
    }
}

/// The names of those among the first `n` prerequisites that are order-only, or
/// of those that are not.
pub open spec fn names_among(prereqs: Seq<PrereqView>, n: int, order_only: bool) -> Seq<Seq<char>>
    decreases n,
{
    if n <= 0 {
        seq![]
    } else if prereqs[n - 1].order_only == order_only {
        names_among(prereqs, n - 1, order_only).push(prereqs[n - 1].name)
    } else {
        names_among(prereqs, n - 1, order_only)
    }
}

/// The names of the normal prerequisites.
pub open spec fn normal_names(prereqs: Seq<PrereqView>) -> Seq<Seq<char>> {
    names_among(prereqs, prereqs.len() as int, false)
}

/// The names of the order-only prerequisites.
pub open spec fn order_only_names(prereqs: Seq<PrereqView>) -> Seq<Seq<char>> {
    names_among(prereqs, prereqs.len() as int, true)
}

/// Collects the names of the prerequisites of one kind.
pub fn collect_names(prereqs: &[Prereq], order_only: bool) -> (r: Vec<String>)
    ensures
        text::views(r@) == names_among(
            text::views(prereqs@),
            prereqs@.len() as int,
            order_only,
        ),
{
    broadcast use text::group_views;

    let mut out: Vec<String> = Vec::new();
    let mut i: usize = 0;
    while i < prereqs.len()
        invariant
            i <= prereqs@.len(),
            text::views(out@) == names_among(text::views(prereqs@), i as int, order_only),
        decreases prereqs.len() - i,
    {
        if prereqs[i].order_only == order_only {
            out.push(prereqs[i].name.dup());
        }
        i = i + 1;
    }
    out
}

/// Whether one of some prerequisites has a name.
pub open spec fn is_prereq(prereqs: Seq<PrereqView>, name: Seq<char>) -> bool {
    exists|i: int| 0 <= i < prereqs.len() && (#[trigger] prereqs[i]).name == name
}

/// `have` with the first `n` of `more` added, except those whose names are there
/// already.
pub open spec fn merged_prereqs(
    have: Seq<PrereqView>,
    more: Seq<PrereqView>,
    n: int,
) -> Seq<PrereqView>
    decreases n,
{
    if n <= 0 {
        have
    } else {
        let before = merged_prereqs(have, more, n - 1);
        if is_prereq(before, more[n - 1].name) {
            before
        } else {
            before.push(more[n - 1])
        }
    }
}

fn lists_prereq(prereqs: &Vec<Prereq>, name: &str) -> (r: bool)
    ensures
        r == is_prereq(text::views(prereqs@), name@),
{
    let mut i: usize = 0;
    while i < prereqs.len()
        invariant
            i <= prereqs@.len(),
            forall|j: int| 0 <= j < i ==> (#[trigger] prereqs@[j]).name@ != name@,
        decreases prereqs.len() - i,
    {
        if same_text(prereqs[i].name.as_str(), name) {
            proof {
                assert(text::views(prereqs@)[i as int].name == name@);
            }
            return true;
        }
        i = i + 1;
    }
    false
}

/// Adds prerequisites that are not listed yet.
pub fn merge_prereqs(have: &mut Vec<Prereq>, more: &[Prereq])
    ensures
        text::views(final(have)@) == merged_prereqs(
            text::views(old(have)@),
            text::views(more@),
            more@.len() as int,
        ),
{
    broadcast use text::group_views;

    let mut i: usize = 0;
    while i < more.len()
        invariant
            i <= more@.len(),
            text::views(have@) == merged_prereqs(
                text::views(old(have)@),
                text::views(more@),
                i as int,
            ),
        decreases more.len() - i,
    {
        if !lists_prereq(have, more[i].name.as_str()) {
            have.push(more[i].dup());
        }
        i = i + 1;
    }
}

/// Merging keeps what was there, in front, and each name that was merged is
/// there afterwards.
pub proof fn lemma_merge_keeps(have: Seq<PrereqView>, more: Seq<PrereqView>, n: int)
    requires
        0 <= n <= more.len(),
    ensures
        have.len() <= merged_prereqs(have, more, n).len(),
        merged_prereqs(have, more, n).take(have.len() as int) == have,
        forall|i: int|
            0 <= i < n ==> is_prereq(merged_prereqs(have, more, n), (#[trigger] more[i]).name),
    decreases n,
{
    if n <= 0 {
        assert(have.take(have.len() as int) =~= have);
    } else {
        lemma_merge_keeps(have, more, n - 1);
        let before = merged_prereqs(have, more, n - 1);
        let after = merged_prereqs(have, more, n);
        assert(after.take(have.len() as int) =~= before.take(have.len() as int));
        assert forall|i: int| 0 <= i < n implies is_prereq(after, (#[trigger] more[i]).name) by {
            if i < n - 1 {
                assert(is_prereq(before, more[i].name));
                let k = choose|k: int|
                    0 <= k < before.len() && (#[trigger] before[k]).name == more[i].name;
                assert(after[k] == before[k]);
            } else if !is_prereq(before, more[i].name) {
                assert(after[before.len() as int].name == more[i].name);
            }
        }
    }
}

/// The prerequisites of the first `n` rules, one after the other.
pub open spec fn rules_prereqs(list: Seq<RuleView>, n: int) -> Seq<PrereqView>
    decreases n,
{
    if n <= 0 {
        seq![]
    } else {
        rules_prereqs(list, n - 1) + list[n - 1].prereqs
    }
}

/// All that a target depends on: its prerequisites, and those of its double-colon
/// rules.
pub open spec fn all_prereqs(e: EntryView) -> Seq<PrereqView> {
    e.prereqs + rules_prereqs(e.dc_rules, e.dc_rules.len() as int)
}

impl TargetEntry {
    /// All that a target depends on.
    pub(crate) fn all_prereqs(&self) -> (r: Vec<Prereq>)
        ensures
            text::views(r@) == all_prereqs(self@),
    {
        let mut out = dup_all(self.prereqs.as_slice());
        let ghost all = text::views(self.dc_rules@);
        let mut i: usize = 0;
        proof {
            assert(text::views(out@) + rules_prereqs(all, 0) =~= text::views(out@));
        }
        while i < self.dc_rules.len()
            invariant
                i <= self.dc_rules@.len(),
                all == text::views(self.dc_rules@),
                text::views(out@) == self@.prereqs + rules_prereqs(all, i as int),
            decreases self.dc_rules.len() - i,
        {
            assert(all[i as int] == self.dc_rules@[i as int]@);
            let ghost before = text::views(out@);
            let mut more = dup_all(self.dc_rules[i].prereqs.as_slice());
            let ghost added = text::views(more@);
            out.append(&mut more);
            proof {
                assert(text::views(out@) =~= before + added);
                assert(before + added =~= self@.prereqs + rules_prereqs(all, i + 1));
            }
            i = i + 1;
        }
        out
    }
}

// ── Modification times ──────────────────────────────────────────────────────

/// The modification time of a target, which is asked for once and then kept.
pub open spec fn mtime_of(
    g: GraphView,
    target: Seq<char>,
    log: Seq<AnswerView>,
    k: nat,
) -> Told<(Option<i128>, GraphView)> {
    let e = g.at(target);
    match e.mtime {
        Some(m) => Ok(((m, g.put(target, e)), k)),
        None => match world::asked(log, k, QueryView::ModTime(target)) {
            Err(s) => Err(s),
            Ok(a) => {
                let m = match a.0 {
                    AnswerView::Time(n) => Some(n),
                    _ => None,
                };
                Ok(((m, g.put(target, EntryView { mtime: Some(m), ..e })), a.1))
            },
        },
    }
}

/// Whether one of the prerequisites from position `j` on is missing or newer
/// than `tm`.
pub open spec fn outdated(
    g: GraphView,
    names: Seq<Seq<char>>,
    j: int,
    tm: i128,
    log: Seq<AnswerView>,
    k: nat,
) -> Told<(bool, GraphView)>
    decreases names.len() - j,
{
    if j < 0 || j >= names.len() {
        Ok(((false, g), k))
    } else {
        match mtime_of(g, names[j], log, k) {
            Err(s) => Err(s),
            Ok(p) => match p.0.0 {
                Some(pm) if pm <= tm => outdated(p.0.1, names, j + 1, tm, log, p.1),
                _ => Ok(((true, p.0.1), p.1)),
            },
        }
    }
}

/// Whether a target has to be rebuilt: it is phony, or missing, or one of its
/// normal prerequisites, those of double-colon rules too, is missing or newer than
/// it.
pub open spec fn stale(
    g: GraphView,
    target: Seq<char>,
    log: Seq<AnswerView>,
    k: nat,
) -> Told<(bool, GraphView)> {
    if g.at(target).phony {
        Ok(((true, g), k))
    } else {
        match mtime_of(g, target, log, k) {
            Err(s) => Err(s),
            Ok(p) => match p.0.0 {
                None => Ok(((true, p.0.1), p.1)),
                Some(tm) => outdated(
                    p.0.1,
                    normal_names(all_prereqs(p.0.1.at(target))),
                    0,
                    tm,
                    log,
                    p.1,
                ),
            },
        }
    }
}

// ── Ordering ────────────────────────────────────────────────────────────────

/// What a walk over the graph has found: the targets in build order, and the
/// circular dependencies that were dropped, each as a target and a prerequisite
/// of it that was still being walked.
pub struct Walk {
    pub order: Seq<Seq<char>>,
    pub dropped: Seq<(Seq<char>, Seq<char>)>,
}

/// The names of prerequisites.
pub open spec fn prereq_names(prereqs: Seq<PrereqView>) -> Seq<Seq<char>> {
    prereqs.map_values(|p: PrereqView| p.name)
}

/// The walk `w` continued with `target` and all it needs; `stack` holds the
/// targets that are being walked.
pub open spec fn visit(
    g: Map<Seq<char>, EntryView>,
    target: Seq<char>,
    stack: Seq<Seq<char>>,
    w: Walk,
) -> Walk
    decreases g.dom().difference(stack.to_set()).len(), 1int, 0int,
    when g.dom().finite()
    via visit_decreases
{
    if w.order.contains(target) {
        w
    } else if stack.contains(target) {
        Walk { dropped: w.dropped.push((stack.last(), target)), ..w }
    } else {
        let v = if g.dom().contains(target) {
            visit_all(g, prereq_names(all_prereqs(g[target])), 0, stack.push(target), w)
        } else {
            w
        };
        Walk { order: v.order.push(target), ..v }
    }
}

#[via_fn]
proof fn visit_decreases(
    g: Map<Seq<char>, EntryView>,
    target: Seq<char>,
    stack: Seq<Seq<char>>,
    w: Walk,
) {
    if !stack.contains(target) && g.dom().contains(target) {
        names::lemma_stack_grows(g.dom(), stack, target);
    }
}

/// The walk `w` continued with the names from position `j` on.
pub open spec fn visit_all(
    g: Map<Seq<char>, EntryView>,
    names: Seq<Seq<char>>,
    j: int,
    stack: Seq<Seq<char>>,
    w: Walk,
) -> Walk
    decreases g.dom().difference(stack.to_set()).len(), 2int, names.len() - j,
    when g.dom().finite()
{
    if j < 0 || j >= names.len() {
        w
    } else {
        visit_all(g, names, j + 1, stack, visit(g, names[j], stack, w))
    }
}

/// The build order for some goals.
pub open spec fn topo(g: GraphView, goals: Seq<Seq<char>>) -> Walk {
    visit_all(g.entries, goals, 0, seq![], Walk { order: seq![], dropped: seq![] })
}

/// The build order for some goals, and the circular dependencies that were
/// dropped, each as a target and its prerequisite.
#[derive(Debug)]
pub struct TopoOrder {
    pub order: Vec<String>,
    pub dropped: Vec<(String, String)>,
}

impl View for TopoOrder {
    type V = Walk;

    open spec fn view(&self) -> Walk {
        Walk { order: text::views(self.order@), dropped: text::views(self.dropped@) }
    }
}

// ── Implicit rules ──────────────────────────────────────────────────────────

/// Whether all the prerequisites from position `j` on exist, with the stem in
/// the place of `%`.
pub open spec fn all_exist(
    prereqs: Seq<Seq<char>>,
    j: int,
    stem: Seq<char>,
    log: Seq<AnswerView>,
    k: nat,
) -> Told<bool>
    decreases prereqs.len() - j,
{
    if j < 0 || j >= prereqs.len() {
        Ok((true, k))
    } else {
        match world::asked(log, k, QueryView::Exists(rule::applied(prereqs[j], stem))) {
            Err(s) => Err(s),
            Ok(a) => if world::says_yes(a.0) {
                all_exist(prereqs, j + 1, stem, log, a.1)
            } else {
                Ok((false, a.1))
            },
        }
    }
}

/// How many kinds of rules are still to be searched after the present one.
pub open spec fn others_left(builtin: bool) -> nat {
    if builtin {
        0
    } else {
        1
    }
}

/// Whether one of the pattern rules from position `i` on makes `target` out of
/// existing files: with `builtin` one of the built-in rules, otherwise one of the
/// makefile's own, and after these any built-in one.
pub open spec fn can_build(
    rules: Seq<PatternRuleView>,
    builtin: bool,
    i: int,
    target: Seq<char>,
    log: Seq<AnswerView>,
    k: nat,
) -> Told<bool>
    decreases others_left(builtin), rules.len() - i,
{
    if i < 0 || i >= rules.len() {
        if builtin {
            Ok((false, k))
        } else {
            can_build(rules, true, 0, target, log, k)
        }
    } else if rules[i].is_builtin != builtin {
        can_build(rules, builtin, i + 1, target, log, k)
    } else {
        match rule::stem(target, rules[i].target) {
            None => can_build(rules, builtin, i + 1, target, log, k),
            Some(s) => match all_exist(rules[i].prereqs, 0, s, log, k) {
                Err(e) => Err(e),
                Ok(p) => if p.0 {
                    Ok((true, p.1))
                } else {
                    can_build(rules, builtin, i + 1, target, log, p.1)
                },
            },
        }
    }
}

/// Whether all the prerequisites from position `j` on exist, are targets, or can
/// be made by a pattern rule that comes later in the search.
pub open spec fn all_satisfiable(
    g: GraphView,
    i: int,
    j: int,
    stem: Seq<char>,
    log: Seq<AnswerView>,
    k: nat,
) -> Told<bool>
    decreases g.pattern_rules[i].prereqs.len() - j,
{
    let prereqs = g.pattern_rules[i].prereqs;
    if j < 0 || j >= prereqs.len() {
        Ok((true, k))
    } else {
        let name = rule::applied(prereqs[j], stem);
        match world::asked(log, k, QueryView::Exists(name)) {
            Err(s) => Err(s),
            Ok(a) => if world::says_yes(a.0) || g.has(name) {
                all_satisfiable(g, i, j + 1, stem, log, a.1)
            } else {
                let builtin = g.pattern_rules[i].is_builtin;
                match can_build(g.pattern_rules, builtin, i + 1, name, log, a.1) {
                    Err(s) => Err(s),
                    Ok(p) => if p.0 {
                        all_satisfiable(g, i, j + 1, stem, log, p.1)
                    } else {
                        Ok((false, p.1))
                    },
                }
            },
        }
    }
}

/// The first pattern rule, from position `i` on, that applies to `target`, and
/// the stem. The makefile's own rules are searched before the built-in ones, with
/// which the search goes on where `builtin` is set.
pub open spec fn applicable(
    g: GraphView,
    target: Seq<char>,
    builtin: bool,
    i: int,
    log: Seq<AnswerView>,
    k: nat,
) -> Told<Option<(int, Seq<char>)>>
    decreases others_left(builtin), g.pattern_rules.len() - i,
{
    if i < 0 || i >= g.pattern_rules.len() {
        if builtin {
            Ok((None, k))
        } else {
            applicable(g, target, true, 0, log, k)
        }
    } else if g.pattern_rules[i].is_builtin != builtin {
        applicable(g, target, builtin, i + 1, log, k)
    } else {
        match rule::stem(target, g.pattern_rules[i].target) {
            None => applicable(g, target, builtin, i + 1, log, k),
            Some(s) => match all_satisfiable(g, i, 0, s, log, k) {
                Err(e) => Err(e),
                Ok(p) => if p.0 {
                    Ok((Some((i, s)), p.1))
                } else {
                    applicable(g, target, builtin, i + 1, log, p.1)
                },
            },
        }
    }
}

/// The prerequisites that a pattern rule gives a target.
pub open spec fn rule_prereqs(r: PatternRuleView, stem: Seq<char>) -> Seq<PrereqView> {
    r.prereqs.map_values(
        |pp: Seq<char>| PrereqView { name: rule::applied(pp, stem), order_only: false },
    )
}

/// A target to which a pattern rule was applied.
pub open spec fn with_rule(e: EntryView, r: PatternRuleView, i: int, stem: Seq<char>) -> EntryView {
    let more = rule_prereqs(r, stem);
    EntryView {
        recipe: r.recipe,
        recipe_loc: Some(r.loc),
        stem: Some(stem),
        implicit_rule: Some(i as usize),
        prereqs: merged_prereqs(e.prereqs, more, more.len() as int),
        ..e
    }
}

/// Whether a target has a recipe, and the graph in which a pattern rule that
/// applies to it has given it one.
pub open spec fn resolved(
    g: GraphView,
    target: Seq<char>,
    log: Seq<AnswerView>,
    k: nat,
) -> Told<(bool, GraphView)> {
    let e = g.at(target);
    if e.recipe.len() > 0 || e.dc_rules.len() > 0 {
        Ok(((true, g), k))
    } else {
        match applicable(g, target, false, 0, log, k) {
            Err(s) => Err(s),
            Ok(p) => match p.0 {
                None => Ok(((false, g), p.1)),
                Some(found) => Ok(
                    (
                        (
                            true,
                            g.put(
                                target,
                                with_rule(e, g.pattern_rules[found.0], found.0, found.1),
                            ),
                        ),
                        p.1,
                    ),
                ),
            },
        }
    }
}

/// A pattern rule and a stem.
#[derive(Debug)]
pub struct Applied(pub Option<(usize, Vec<char>)>);

impl View for Applied {
    type V = Option<(int, Seq<char>)>;

    open spec fn view(&self) -> Option<(int, Seq<char>)> {
        match self.0 {
            Some(p) => Some((p.0 as int, p.1@)),
            None => None,
        }
    }
}

impl BuildGraph {
    pub fn new() -> (r: Self)
        ensures
            r@ == empty_graph(),
    {
        broadcast use text::group_views;

        BuildGraph {
            entries: NameMap::new(),
            default_recipe: None,
            pattern_rules: Vec::new(),
            suffixes: Vec::new(),
            archive_members: Vec::new(),
        }
    }

    /// What is known of a target, to be changed. A target that was not known
    /// becomes known.
    pub fn entry(&mut self, name: &str) -> (r: &mut TargetEntry)
        ensures
            r@ == old(self)@.at(name@),
            final(self)@ == old(self)@.put(name@, (*final(r))@),
    {
        self.entries.entry(name, TargetEntry::default())
    }

    /// A copy of what is known of a target.
    pub(crate) fn known(&self, name: &str) -> (r: TargetEntry)
        ensures
            r@ == self@.at(name@),
    {
        match self.entries.get(name) {
            Some(e) => e.dup(),
            None => TargetEntry::default(),
        }
    }

    /// Return all normal (non-order-only) prerequisites for a target,
    /// including those of its double-colon rules and those that an implicit rule
    /// has given it.
    pub fn prereqs_of(&self, name: &str) -> (r: Vec<String>)
        ensures
            text::views(r@) == normal_names(all_prereqs(self@.at(name@))),
    {
        let entry = self.known(name);
        let all = entry.all_prereqs();
        collect_names(all.as_slice(), false)
    }

    pub fn order_only_of(&self, name: &str) -> (r: Vec<String>)
        ensures
            text::views(r@) == order_only_names(all_prereqs(self@.at(name@))),
    {
        let entry = self.known(name);
        let all = entry.all_prereqs();
        collect_names(all.as_slice(), true)
    }

    /// The modification time of a target, asked for once.
    fn get_mtime(&mut self, target: &str, t: &mut Transcript) -> (r: Result<Option<i128>, Stop>)
        ensures
            final(t).log() == old(t).log(),
            match mtime_of(old(self)@, target@, old(t).log(), old(t).at()) {
                Ok(p) => r == Ok::<Option<i128>, Stop>(p.0.0) && final(self)@ == p.0.1
                    && final(t).at() == p.1,
                Err(s) => r is Err && r->Err_0@ == s.0 && final(t).at() == s.1,
            },
    {
        let entry = self.entry(target);
        if let Some(m) = entry.mtime {
            return Ok(m);
        }
        let m = match t.ask(Query::ModTime(owned(target)))? {
            Answer::Time(n) => Some(n),
            _ => None,
        };
        entry.mtime = Some(m);
        Ok(m)
    }

    /// Whether `target` needs to be rebuilt. Where the answers run out, the times
    /// that were found may stay in the graph.
    pub(crate) fn check_stale(&mut self, target: &str, t: &mut Transcript) -> (r: Result<bool, Stop>)
        ensures
            final(t).log() == old(t).log(),
            match stale(old(self)@, target@, old(t).log(), old(t).at()) {
                Ok(p) => r == Ok::<bool, Stop>(p.0.0) && final(self)@ == p.0.1 && final(t).at()
                    == p.1,
                Err(s) => r is Err && r->Err_0@ == s.0 && final(t).at() == s.1,
            },
    {
        let phony = match self.entries.get(target) {
            Some(e) => e.phony,
            None => false,
        };
        if phony {
            return Ok(true);
        }
        match self.get_mtime(target, t)? {
            None => Ok(true),
            Some(tm) => {
                let prereqs = self.prereqs_of(target);
                let ghost names = text::views(prereqs@);
                let ghost start = self@;
                let ghost k = t.at();
                let mut j: usize = 0;
                while j < prereqs.len()
                    invariant
                        j <= prereqs@.len(),
                        names == text::views(prereqs@),
                        t.log() == old(t).log(),
                        stale(old(self)@, target@, old(t).log(), old(t).at()) == outdated(
                            start,
                            names,
                            0,
                            tm,
                            t.log(),
                            k,
                        ),
                        outdated(start, names, 0, tm, t.log(), k) == outdated(
                            self@,
                            names,
                            j as int,
                            tm,
                            t.log(),
                            t.at(),
                        ),
                    decreases prereqs.len() - j,
                {
                    assert(names[j as int] == prereqs@[j as int]@);
                    match self.get_mtime(prereqs[j].as_str(), t)? {
                        Some(pm) => {
                            if pm > tm {
                                return Ok(true);
                            }
                        },
                        None => {
                            return Ok(true);
                        },
                    }
                    j = j + 1;
                }
                Ok(false)
            },
        }
    }

    /// True if `target` needs to be rebuilt.
    pub fn needs_rebuild(&mut self, target: &str, t: &mut Transcript) -> (r: Result<bool, Stop>)
        ensures
            final(t).log() == old(t).log(),
            match stale(old(self)@, target@, old(t).log(), old(t).at()) {
                Ok(p) => r == Ok::<bool, Stop>(p.0.0) && final(self)@ == p.0.1 && final(t).at()
                    == p.1,
                Err(s) => r is Err && r->Err_0@ == s.0 && final(t).at() == s.1 && final(self)@
                    == old(self)@,
            },
    {
        let mut copy = self.dup();
        let r = copy.check_stale(target, t)?;
        *self = copy;
        Ok(r)
    }

    /// Invalidate the cached mtime (call after a target is built).
    pub fn invalidate_mtime(&mut self, target: &str)
        ensures
            final(self)@ == (if old(self)@.has(target@) {
                old(self)@.put(target@, EntryView { mtime: None, ..old(self)@.at(target@) })
            } else {
                old(self)@
            }),
    {
        if self.entries.contains_key(target) {
            let entry = self.entry(target);
            entry.mtime = None;
        }
    }

    /// Topological sort starting from `goals`.
    /// Returns targets in build order (leaves first).
    pub fn topo_sort(&self, goals: &[String]) -> (r: TopoOrder)
        ensures
            r@ == topo(self@, text::views(goals@)),
    {
        broadcast use text::group_views;

        self.entries.listing();
        let mut w = TopoOrder { order: Vec::new(), dropped: Vec::new() };
        let mut stack: Vec<String> = Vec::new();
        let ghost names = text::views(goals@);
        let ghost start = w@;
        let mut j: usize = 0;
        while j < goals.len()
            invariant
                j <= goals@.len(),
                self@.entries.dom().finite(),
                names == text::views(goals@),
                text::views(stack@) == Seq::<Seq<char>>::empty(),
                visit_all(self@.entries, names, 0, seq![], start) == visit_all(
                    self@.entries,
                    names,
                    j as int,
                    seq![],
                    w@,
                ),
            decreases goals.len() - j,
        {
            assert(names[j as int] == goals@[j as int]@);
            self.walk(goals[j].as_str(), &mut stack, &mut w);
            j = j + 1;
        }
        w
    }

    fn walk(&self, target: &str, stack: &mut Vec<String>, w: &mut TopoOrder)
        requires
            self@.entries.dom().finite(),
        ensures
            text::views(final(stack)@) == text::views(old(stack)@),
            final(w)@ == visit(self@.entries, target@, text::views(old(stack)@), old(w)@),
        decreases self@.entries.dom().difference(text::views(old(stack)@).to_set()).len(),
    {
        broadcast use text::group_views;

        if has_string(w.order.as_slice(), target) {
            return ;
        }
        if has_string(stack.as_slice(), target) {
            assert(stack@.len() > 0);
            assert(text::views(stack@).last() == stack@[stack@.len() - 1]@);
            let parent = stack[stack.len() - 1].dup();
            w.dropped.push((parent, owned(target)));
            return ;
        }
        let ghost outer = text::views(stack@);
        let ghost g = self@.entries;
        if let Some(entry) = self.entries.get(target) {
            stack.push(owned(target));
            let ghost inner = text::views(stack@);
            let all = entry.all_prereqs();
            let ghost names = prereq_names(all_prereqs(entry@));
            let ghost start = w@;
            proof {
                names::lemma_stack_grows(g.dom(), outer, target@);
            }
            let mut j: usize = 0;
            while j < all.len()
                invariant
                    j <= all@.len(),
                    text::views(all@) == all_prereqs(entry@),
                    g == self@.entries,
                    g.dom().finite(),
                    names == prereq_names(all_prereqs(entry@)),
                    text::views(stack@) == inner,
                    inner == outer.push(target@),
                    g.dom().difference(inner.to_set()).len() < g.dom().difference(
                        outer.to_set(),
                    ).len(),
                    outer == text::views(old(stack)@),
                    visit_all(g, names, 0, inner, start) == visit_all(
                        g,
                        names,
                        j as int,
                        inner,
                        w@,
                    ),
                decreases all.len() - j,
            {
                assert(all_prereqs(entry@)[j as int] == all@[j as int]@);
                assert(names[j as int] == all@[j as int].name@);
                self.walk(all[j].name.as_str(), stack, w);
                j = j + 1;
            }
            let ghost before = stack@;
            let _ = stack.pop();
            proof {
                assert(text::views(stack@) =~= text::views(before).drop_last());
                assert(inner.drop_last() =~= outer);
            }
        }
        w.order.push(owned(target));
    }

    /// Find which implicit rule (if any) applies to `target`.
    /// Mutates the entry to store the resolved stem and rule index.
    pub fn resolve_implicit(&mut self, target: &str, t: &mut Transcript) -> (r: Result<bool, Stop>)
        ensures
            final(t).log() == old(t).log(),
            match resolved(old(self)@, target@, old(t).log(), old(t).at()) {
                Ok(p) => r == Ok::<bool, Stop>(p.0.0) && final(self)@ == p.0.1 && final(t).at()
                    == p.1,
                Err(s) => r is Err && r->Err_0@ == s.0 && final(t).at() == s.1 && final(self)@
                    == old(self)@,
            },
    {
        // Skip if we already have an explicit recipe
        if let Some(e) = self.entries.get(target) {
            if e.recipe.len() > 0 || e.dc_rules.len() > 0 {
                return Ok(true);
            }
        }
        let found = self.find_applicable(target, t)?;
        match found.0 {
            None => Ok(false),
            Some((i, stem)) => {
                let rule = self.pattern_rules[i].dup();
                let more = concrete_prereqs(&rule, stem.as_slice());
                let entry = self.entry(target);
                entry.recipe = rule.recipe;
                entry.recipe_loc = Some(rule.loc);
                entry.stem = Some(string_of(stem.as_slice()));
                entry.implicit_rule = Some(i);
                // Add prereqs not already listed
                merge_prereqs(&mut entry.prereqs, more.as_slice());
                Ok(true)
            },
        }
    }

    fn find_applicable(&self, target: &str, t: &mut Transcript) -> (r: Result<Applied, Stop>)
        ensures
            world::tells(
                r,
                *old(t),
                *final(t),
                applicable(self@, target@, false, 0, old(t).log(), old(t).at()),
            ),
            r matches Ok(Applied(Some(p))) ==> p.0 < self@.pattern_rules.len(),
    {
        let name = chars_of(target);
        let ghost g = self@;
        let ghost want = applicable(g, target@, false, 0, t.log(), t.at());
        let mut builtin = false;
        let mut i: usize = 0;
        while !builtin || i < self.pattern_rules.len()
            invariant
                i <= self.pattern_rules@.len(),
                g == self@,
                name@ == target@,
                t.log() == old(t).log(),
                want == applicable(self@, target@, false, 0, old(t).log(), old(t).at()),
                want == applicable(g, target@, builtin, i as int, t.log(), t.at()),
            decreases others_left(builtin), self.pattern_rules.len() - i,
        {
            if i >= self.pattern_rules.len() {
                builtin = true;
                i = 0;
            } else {
                let pattern = chars_of(self.pattern_rules[i].target.as_str());
                assert(g.pattern_rules[i as int] == self.pattern_rules@[i as int]@);
                if self.pattern_rules[i].is_builtin == builtin {
                    if let Some(stem) = stem_of(name.as_slice(), pattern.as_slice()) {
                        if self.satisfiable(i, stem.as_slice(), t)? {
                            return Ok(Applied(Some((i, stem))));
                        }
                    }
                }
                i = i + 1;
            }
        }
        Ok(Applied(None))
    }

    fn satisfiable(&self, i: usize, stem: &[char], t: &mut Transcript) -> (r: Result<bool, Stop>)
        requires
            i < self.pattern_rules@.len(),
        ensures
            world::tells(
                r,
                *old(t),
                *final(t),
                all_satisfiable(self@, i as int, 0, stem@, old(t).log(), old(t).at()),
            ),
    {
        let ghost g = self@;
        let ghost want = all_satisfiable(g, i as int, 0, stem@, t.log(), t.at());
        assert(g.pattern_rules[i as int] == self.pattern_rules@[i as int]@);
        let mut j: usize = 0;
        while j < self.pattern_rules[i].prereqs.len()
            invariant
                i < self.pattern_rules@.len(),
                j <= self.pattern_rules@[i as int].prereqs@.len(),
                g == self@,
                g.pattern_rules[i as int] == self.pattern_rules@[i as int]@,
                t.log() == old(t).log(),
                want == all_satisfiable(self@, i as int, 0, stem@, old(t).log(), old(t).at()),
                want == all_satisfiable(g, i as int, j as int, stem@, t.log(), t.at()),
            decreases self.pattern_rules@[i as int].prereqs@.len() - j,
        {
            let pp = chars_of(self.pattern_rules[i].prereqs[j].as_str());
            assert(g.pattern_rules[i as int].prereqs[j as int] == pp@);
            let concrete = apply_chars(pp.as_slice(), stem);
            let name = string_of(concrete.as_slice());
            let builtin = self.pattern_rules[i].is_builtin;
            assert(i < self.pattern_rules.len());
            let here = t.ask(Query::Exists(name.dup()))?;
            let ok = is_yes(&here) || self.entries.contains_key(name.as_str())
                || self.can_build_implicit(concrete.as_slice(), builtin, i + 1, t)?;
            if !ok {
                return Ok(false);
            }
            j = j + 1;
        }
        Ok(true)
    }

    fn can_build_implicit(
        &self,
        target: &[char],
        phase: bool,
        start: usize,
        t: &mut Transcript,
    ) -> (r: Result<bool, Stop>)
        requires
            start <= self.pattern_rules@.len(),
        ensures
            world::tells(
                r,
                *old(t),
                *final(t),
                can_build(
                    self@.pattern_rules,
                    phase,
                    start as int,
                    target@,
                    old(t).log(),
                    old(t).at(),
                ),
            ),
    {
        let ghost rules = self@.pattern_rules;
        let ghost want = can_build(rules, phase, start as int, target@, t.log(), t.at());
        let mut builtin = phase;
        let mut i: usize = start;
        while !builtin || i < self.pattern_rules.len()
            invariant
                i <= self.pattern_rules@.len(),
                rules == self@.pattern_rules,
                t.log() == old(t).log(),
                want == can_build(
                    self@.pattern_rules,
                    phase,
                    start as int,
                    target@,
                    old(t).log(),
                    old(t).at(),
                ),
                want == can_build(rules, builtin, i as int, target@, t.log(), t.at()),
            decreases others_left(builtin), self.pattern_rules.len() - i,
        {
            if i >= self.pattern_rules.len() {
                builtin = true;
                i = 0;
            } else {
                let pattern = chars_of(self.pattern_rules[i].target.as_str());
                assert(rules[i as int] == self.pattern_rules@[i as int]@);
                if self.pattern_rules[i].is_builtin == builtin {
                    if let Some(stem) = stem_of(target, pattern.as_slice()) {
                        if prereqs_exist(&self.pattern_rules[i], stem.as_slice(), t)? {
                            return Ok(true);
                        }
                    }
                }
                i = i + 1;
            }
        }
        Ok(false)
    }
}

fn prereqs_exist(rule: &PatternRule, stem: &[char], t: &mut Transcript) -> (r: Result<bool, Stop>)
    ensures
        world::tells(
            r,
            *old(t),
            *final(t),
            all_exist(rule@.prereqs, 0, stem@, old(t).log(), old(t).at()),
        ),
{
    let ghost want = all_exist(rule@.prereqs, 0, stem@, t.log(), t.at());
    let mut j: usize = 0;
    while j < rule.prereqs.len()
        invariant
            j <= rule.prereqs@.len(),
            t.log() == old(t).log(),
            want == all_exist(rule@.prereqs, 0, stem@, old(t).log(), old(t).at()),
            want == all_exist(rule@.prereqs, j as int, stem@, t.log(), t.at()),
        decreases rule.prereqs.len() - j,
    {
        let pp = chars_of(rule.prereqs[j].as_str());
        assert(rule@.prereqs[j as int] == pp@);
        let concrete = apply_chars(pp.as_slice(), stem);
        let here = t.ask(Query::Exists(string_of(concrete.as_slice())))?;
        if !is_yes(&here) {
            return Ok(false);
        }
        j = j + 1;
    }
    Ok(true)
}

fn concrete_prereqs(rule: &PatternRule, stem: &[char]) -> (r: Vec<Prereq>)
    ensures
        text::views(r@) == rule_prereqs(rule@, stem@),
{
    let mut out: Vec<Prereq> = Vec::new();
    let ghost want = rule_prereqs(rule@, stem@);
    let mut j: usize = 0;
    while j < rule.prereqs.len()
        invariant
            j <= rule.prereqs@.len(),
            out@.len() == j,
            want == rule_prereqs(rule@, stem@),
            forall|n: int| 0 <= n < j ==> (#[trigger] out@[n])@ == want[n],
        decreases rule.prereqs.len() - j,
    {
        let pp = chars_of(rule.prereqs[j].as_str());
        let concrete = apply_chars(pp.as_slice(), stem);
        assert(rule@.prereqs[j as int] == pp@);
        out.push(Prereq { name: string_of(concrete.as_slice()), order_only: false });
        j = j + 1;
    }
    proof {
        assert(text::views(out@) =~= want);
    }
    out
}

/// The library and the member in an archive member target.
pub open spec fn archive_parts(target: Seq<char>) -> Option<(Seq<char>, Seq<char>)> {
    match target.index_of_first('(') {
        Some(p) if target.last() == ')' => Some(
            (target.take(p), target.subrange(p + 1, target.len() - 1)),
        ),
        _ => None,
    }
}

/// Parse an archive member target like `libfoo.a(bar.o)` into `(lib, member)`.
pub fn parse_archive_target(target: &str) -> (r: Option<(&str, &str)>)
    ensures
        match r {
            Some(p) => archive_parts(target@) == Some((p.0@, p.1@)),
            None => archive_parts(target@) is None,
        },
{
    let v = chars_of(target);
    match find_char(v.as_slice(), '(') {
        None => None,
        Some(p) => {
            proof {
                target@.index_of_first_ensures('(');
            }
            if v[v.len() - 1] != ')' {
                return None;
            }
            let lib = target.substring_char(0, p);
            let member = target.substring_char(p + 1, v.len() - 1);
            assert(target@.subrange(0, p as int) =~= target@.take(p as int));
            Some((lib, member))
        },
    }
}

// ── What holds of build orders ──────────────────────────────────────────────

/// Whether every prerequisite of a target in the order stands before it, or was
/// dropped as a circular dependency of it.
pub open spec fn settled(g: Map<Seq<char>, EntryView>, w: Walk) -> bool {
    forall|i: int, n: int|
        0 <= i < w.order.len() && g.dom().contains(#[trigger] w.order[i]) && 0 <= n
            < all_prereqs(g[w.order[i]]).len() ==> {
            let name = (#[trigger] all_prereqs(g[w.order[i]])[n]).name;
            w.order.take(i).contains(name) || w.dropped.contains((w.order[i], name))
        }
}

/// Whether `name` is a prerequisite of `target`.
pub open spec fn needs(
    g: Map<Seq<char>, EntryView>,
    target: Seq<char>,
    name: Seq<char>,
) -> bool {
    g.dom().contains(target) && is_prereq(all_prereqs(g[target]), name)
}

/// What a step of the walk keeps: what was found before stays, in front; nothing
/// comes twice; nothing that is being walked is added; what is dropped is a
/// prerequisite, and was being walked or comes into the order.
pub open spec fn walked(
    g: Map<Seq<char>, EntryView>,
    stack: Seq<Seq<char>>,
    w: Walk,
    v: Walk,
) -> bool {
    &&& w.order.len() <= v.order.len()
    &&& v.order.take(w.order.len() as int) == w.order
    &&& forall|x: (Seq<char>, Seq<char>)| #[trigger]
        w.dropped.contains(x) ==> v.dropped.contains(x)
    &&& forall|x: Seq<char>| #[trigger] w.order.contains(x) ==> v.order.contains(x)
    &&& forall|x: Seq<char>| stack.contains(x) ==> (#[trigger] v.order.contains(x)
        == w.order.contains(x))
    &&& forall|x: (Seq<char>, Seq<char>)| #[trigger]
        v.dropped.contains(x) ==> w.dropped.contains(x) || (needs(g, x.0, x.1) && (
        v.order.contains(x.1) || stack.contains(x.1)))
    &&& w.order.no_duplicates() ==> v.order.no_duplicates()
    &&& settled(g, w) ==> settled(g, v)
}

proof fn lemma_visit(
    g: Map<Seq<char>, EntryView>,
    target: Seq<char>,
    stack: Seq<Seq<char>>,
    w: Walk,
)
    requires
        g.dom().finite(),
        stack.len() > 0 ==> needs(g, stack.last(), target),
    ensures
        walked(g, stack, w, visit(g, target, stack, w)),
        visit(g, target, stack, w).order.contains(target) || (stack.contains(target) && visit(
            g,
            target,
            stack,
            w,
        ).dropped.contains((stack.last(), target))),
    decreases g.dom().difference(stack.to_set()).len(), 1int, 0int,
{
    let v = visit(g, target, stack, w);
    if w.order.contains(target) {
        assert(w.order.take(w.order.len() as int) =~= w.order);
    } else if stack.contains(target) {
        text::lemma_push_contains(w.dropped, (stack.last(), target));
        assert(w.order.take(w.order.len() as int) =~= w.order);
        assert(settled(g, w) ==> settled(g, v));
    } else {
        let inner = stack.push(target);
        text::lemma_push_contains(stack, target);
        let u = if g.dom().contains(target) {
            let names = prereq_names(all_prereqs(g[target]));
            names::lemma_stack_grows(g.dom(), stack, target);
            assert forall|n: int| 0 <= n < names.len() implies needs(
                g,
                target,
                #[trigger] names[n],
            ) by {
                assert(all_prereqs(g[target])[n].name == names[n]);
            }
            lemma_visit_all(g, names, 0, inner, w);
            visit_all(g, names, 0, inner, w)
        } else {
            assert(w.order.take(w.order.len() as int) =~= w.order);
            w
        };
        assert(walked(g, inner, w, u));
        assert(v.order == u.order.push(target));
        text::lemma_push_contains(u.order, target);
        assert(inner.contains(target));
        assert(!u.order.contains(target));
        assert(v.order.take(w.order.len() as int) =~= u.order.take(w.order.len() as int));
        if settled(g, w) {
            assert forall|i: int, n: int|
                0 <= i < v.order.len() && g.dom().contains(#[trigger] v.order[i]) && 0 <= n
                    < all_prereqs(g[v.order[i]]).len() implies {
                let name = (#[trigger] all_prereqs(g[v.order[i]])[n]).name;
                v.order.take(i).contains(name) || v.dropped.contains((v.order[i], name))
            } by {
                let name = all_prereqs(g[v.order[i]])[n].name;
                if i < u.order.len() {
                    assert(u.order[i] == v.order[i]);
                    assert(v.order.take(i) =~= u.order.take(i));
                } else {
                    let names = prereq_names(all_prereqs(g[target]));
                    assert(names[n] == name);
                    assert(v.order.take(i) =~= u.order);
                }
            }
        }
        if w.order.no_duplicates() {
            assert(v.order.no_duplicates());
        }
    }
}

proof fn lemma_visit_all(
    g: Map<Seq<char>, EntryView>,
    names: Seq<Seq<char>>,
    j: int,
    stack: Seq<Seq<char>>,
    w: Walk,
)
    requires
        g.dom().finite(),
        0 <= j <= names.len(),
        forall|n: int|
            0 <= n < names.len() && stack.len() > 0 ==> needs(g, stack.last(), #[trigger] names[n]),
    ensures
        walked(g, stack, w, visit_all(g, names, j, stack, w)),
        forall|n: int|
            j <= n < names.len() ==> visit_all(g, names, j, stack, w).order.contains(
                #[trigger] names[n],
            ) || (stack.contains(names[n]) && visit_all(g, names, j, stack, w).dropped.contains(
                (stack.last(), names[n]),
            )),
    decreases g.dom().difference(stack.to_set()).len(), 2int, names.len() - j,
{
    if j < names.len() {
        let u = visit(g, names[j], stack, w);
        lemma_visit(g, names[j], stack, w);
        lemma_visit_all(g, names, j + 1, stack, u);
        let v = visit_all(g, names, j, stack, w);
        assert(v == visit_all(g, names, j + 1, stack, u));
        assert(v.order.take(w.order.len() as int) =~= v.order.take(u.order.len() as int).take(
            w.order.len() as int,
        ));
    } else {
        assert(w.order.take(w.order.len() as int) =~= w.order);
    }
}

/// A build order names no target twice. It holds every goal, and with each
/// target all its prerequisites. Each prerequisite stands before the target,
/// except where it was dropped as a circular dependency of that target; nothing
/// but prerequisites is dropped.
pub proof fn lemma_topo(g: GraphView, goals: Seq<Seq<char>>)
    requires
        g.entries.dom().finite(),
    ensures
        topo(g, goals).order.no_duplicates(),
        forall|i: int| 0 <= i < goals.len() ==> topo(g, goals).order.contains(#[trigger] goals[i]),
        settled(g.entries, topo(g, goals)),
        forall|x: (Seq<char>, Seq<char>)| #[trigger]
            topo(g, goals).dropped.contains(x) ==> needs(g.entries, x.0, x.1) && topo(
                g,
                goals,
            ).order.contains(x.1),
        forall|i: int, n: int|
            0 <= i < topo(g, goals).order.len() && g.has(#[trigger] topo(g, goals).order[i]) && 0
                <= n < all_prereqs(g.entries[topo(g, goals).order[i]]).len() ==> topo(
                g,
                goals,
            ).order.contains(
                (#[trigger] all_prereqs(g.entries[topo(g, goals).order[i]])[n]).name,
            ),
{
    let w = Walk { order: seq![], dropped: seq![] };
    lemma_visit_all(g.entries, goals, 0, seq![], w);
    let v = topo(g, goals);
    assert(settled(g.entries, w));
    assert forall|i: int| 0 <= i < goals.len() implies v.order.contains(#[trigger] goals[i]) by {
        assert(!Seq::<Seq<char>>::empty().contains(goals[i]));
    }
    assert forall|x: (Seq<char>, Seq<char>)| #[trigger] v.dropped.contains(x) implies needs(
        g.entries,
        x.0,
        x.1,
    ) && v.order.contains(x.1) by {
        assert(!Seq::<(Seq<char>, Seq<char>)>::empty().contains(x));
        assert(!Seq::<Seq<char>>::empty().contains(x.1));
    }
    assert forall|i: int, n: int|
        0 <= i < v.order.len() && g.has(#[trigger] v.order[i]) && 0 <= n
            < all_prereqs(g.entries[v.order[i]]).len() implies v.order.contains(
        (#[trigger] all_prereqs(g.entries[v.order[i]])[n]).name,
    ) by {
        let name = all_prereqs(g.entries[v.order[i]])[n].name;
        if v.order.take(i).contains(name) {
            let k = choose|k: int| 0 <= k < v.order.take(i).len() && v.order.take(i)[k] == name;
            assert(v.order[k] == name);
        }
    }
}

/// Whether the targets depend on the same in both graphs, of which the second may
/// have more targets, none with prerequisites.
pub open spec fn same_needs(g: Map<Seq<char>, EntryView>, h: Map<Seq<char>, EntryView>) -> bool {
    &&& forall|x: Seq<char>| #[trigger]
        g.dom().contains(x) ==> h.dom().contains(x) && all_prereqs(h[x]) == all_prereqs(g[x])
    &&& forall|x: Seq<char>| #[trigger]
        h.dom().contains(x) && !g.dom().contains(x) ==> all_prereqs(h[x]).len() == 0
}

/// Where targets depend on the same, the build order is the same.
pub proof fn lemma_same_order(g: GraphView, h: GraphView, goals: Seq<Seq<char>>)
    requires
        g.entries.dom().finite(),
        h.entries.dom().finite(),
        same_needs(g.entries, h.entries),
    ensures
        topo(g, goals) == topo(h, goals),
{
    lemma_same_visit_all(
        g.entries,
        h.entries,
        goals,
        0,
        seq![],
        Walk { order: seq![], dropped: seq![] },
    );
}

proof fn lemma_same_visit(
    g: Map<Seq<char>, EntryView>,
    h: Map<Seq<char>, EntryView>,
    target: Seq<char>,
    stack: Seq<Seq<char>>,
    w: Walk,
)
    requires
        g.dom().finite(),
        h.dom().finite(),
        same_needs(g, h),
    ensures
        visit(g, target, stack, w) == visit(h, target, stack, w),
    decreases h.dom().difference(stack.to_set()).len(), 1int, 0int,
{
    if !w.order.contains(target) && !stack.contains(target) && h.dom().contains(target) {
        names::lemma_stack_grows(h.dom(), stack, target);
        let list = prereq_names(all_prereqs(h[target]));
        lemma_same_visit_all(g, h, list, 0, stack.push(target), w);
    }
}

proof fn lemma_same_visit_all(
    g: Map<Seq<char>, EntryView>,
    h: Map<Seq<char>, EntryView>,
    list: Seq<Seq<char>>,
    j: int,
    stack: Seq<Seq<char>>,
    w: Walk,
)
    requires
        g.dom().finite(),
        h.dom().finite(),
        same_needs(g, h),
    ensures
        visit_all(g, list, j, stack, w) == visit_all(h, list, j, stack, w),
    decreases h.dom().difference(stack.to_set()).len(), 2int, list.len() - j,
{
    if 0 <= j < list.len() {
        lemma_same_visit(g, h, list[j], stack, w);
        lemma_same_visit_all(g, h, list, j + 1, stack, visit(h, list[j], stack, w));
    }
}

/// Whether every prerequisite ranks below its target.
pub open spec fn ranked(g: GraphView, rank: spec_fn(Seq<char>) -> nat) -> bool {
    forall|x: Seq<char>, n: int|
        #![trigger all_prereqs(g.entries[x])[n]]
        g.has(x) && 0 <= n < all_prereqs(g.entries[x]).len() ==> rank(all_prereqs(g.entries[x])[n].name)
            < rank(x)
}

/// Where no target depends on itself, directly or through others, nothing is
/// dropped.
pub proof fn lemma_acyclic(
    g: GraphView,
    goals: Seq<Seq<char>>,
    rank: spec_fn(Seq<char>) -> nat,
)
    requires
        g.entries.dom().finite(),
        ranked(g, rank),
    ensures
        topo(g, goals).dropped.len() == 0,
{
    lemma_acyclic_all(g, goals, 0, seq![], Walk { order: seq![], dropped: seq![] }, rank);
}

proof fn lemma_acyclic_visit(
    g: GraphView,
    target: Seq<char>,
    stack: Seq<Seq<char>>,
    w: Walk,
    rank: spec_fn(Seq<char>) -> nat,
)
    requires
        g.entries.dom().finite(),
        ranked(g, rank),
        forall|i: int| 0 <= i < stack.len() ==> rank(target) < rank(#[trigger] stack[i]),
    ensures
        visit(g.entries, target, stack, w).dropped == w.dropped,
    decreases g.entries.dom().difference(stack.to_set()).len(), 1int, 0int,
{
    if stack.contains(target) {
        let i = choose|i: int| 0 <= i < stack.len() && stack[i] == target;
        assert(rank(target) < rank(stack[i]));
    } else if !w.order.contains(target) && g.has(target) {
        names::lemma_stack_grows(g.entries.dom(), stack, target);
        let inner = stack.push(target);
        let names = prereq_names(all_prereqs(g.entries[target]));
        assert forall|n: int, i: int| 0 <= n < names.len() && 0 <= i < inner.len() implies rank(
            #[trigger] names[n],
        ) < rank(#[trigger] inner[i]) by {
            assert(names[n] == all_prereqs(g.entries[target])[n].name);
        }
        lemma_acyclic_all(g, names, 0, inner, w, rank);
    }
}

proof fn lemma_acyclic_all(
    g: GraphView,
    names: Seq<Seq<char>>,
    j: int,
    stack: Seq<Seq<char>>,
    w: Walk,
    rank: spec_fn(Seq<char>) -> nat,
)
    requires
        g.entries.dom().finite(),
        ranked(g, rank),
        0 <= j <= names.len(),
        forall|n: int, i: int|
            0 <= n < names.len() && 0 <= i < stack.len() ==> rank(#[trigger] names[n]) < rank(
                #[trigger] stack[i],
            ),
    ensures
        visit_all(g.entries, names, j, stack, w).dropped == w.dropped,
    decreases g.entries.dom().difference(stack.to_set()).len(), 2int, names.len() - j,
{
    if j < names.len() {
        assert(forall|i: int|
            0 <= i < stack.len() ==> rank(names[j]) < rank(#[trigger] stack[i]));
        lemma_acyclic_visit(g, names[j], stack, w, rank);
        lemma_acyclic_all(
            g,
            names,
            j + 1,
            stack,
            visit(g.entries, names[j], stack, w),
            rank,
        );
    }
}

// ── What holds of modification times ────────────────────────────────────────

/// A phony target always has to be rebuilt, and nothing is asked about it.
pub proof fn lemma_phony_stale(
    g: GraphView,
    target: Seq<char>,
    log: Seq<AnswerView>,
    k: nat,
)
    requires
        g.at(target).phony,
    ensures
        stale(g, target, log, k) == Ok::<((bool, GraphView), nat), (StopView, nat)>(
            ((true, g), k),
        ),
{
}

/// A target whose file is missing has to be rebuilt.
pub proof fn lemma_missing_stale(
    g: GraphView,
    target: Seq<char>,
    log: Seq<AnswerView>,
    k: nat,
)
    requires
        g.at(target).mtime == Some(None::<i128>),
    ensures
        stale(g, target, log, k) matches Ok(p) && p.0.0,
{
}

/// Where the times of a target and of its normal prerequisites are known, it has
/// to be rebuilt exactly if one of these is missing or newer. Order-only
/// prerequisites have no part in it.
pub proof fn lemma_known_times(
    g: GraphView,
    target: Seq<char>,
    tm: i128,
    log: Seq<AnswerView>,
    k: nat,
)
    requires
        !g.at(target).phony,
        g.at(target).mtime == Some(Some(tm)),
        forall|j: int|
            0 <= j < normal_names(all_prereqs(g.at(target))).len() ==> g.at(
                #[trigger] normal_names(all_prereqs(g.at(target)))[j],
            ).mtime is Some,
    ensures
        stale(g, target, log, k) matches Ok(p) && p.1 == k && p.0.0 == (exists|j: int|
            0 <= j < normal_names(all_prereqs(g.at(target))).len() && match g.at(
                #[trigger] normal_names(all_prereqs(g.at(target)))[j],
            ).mtime->Some_0 {
                None => true,
                Some(pm) => pm > tm,
            }),
{
    let names = normal_names(all_prereqs(g.at(target)));
    let h = g.put(target, g.at(target));
    assert(forall|x: Seq<char>| #[trigger] h.at(x) == g.at(x));
    lemma_known_outdated(g, h, names, 0, tm, log, k);
}

proof fn lemma_known_outdated(
    g: GraphView,
    h: GraphView,
    names: Seq<Seq<char>>,
    j: int,
    tm: i128,
    log: Seq<AnswerView>,
    k: nat,
)
    requires
        0 <= j <= names.len(),
        forall|x: Seq<char>| #[trigger] h.at(x) == g.at(x),
        forall|n: int| 0 <= n < names.len() ==> g.at(#[trigger] names[n]).mtime is Some,
    ensures
        outdated(h, names, j, tm, log, k) matches Ok(p) && p.1 == k && p.0.0 == (exists|n: int|
            j <= n < names.len() && match g.at(#[trigger] names[n]).mtime->Some_0 {
                None => true,
                Some(pm) => pm > tm,
            }),
    decreases names.len() - j,
{
    if j < names.len() {
        let x = names[j];
        assert(h.at(x) == g.at(x));
        let next = h.put(x, h.at(x));
        assert(forall|y: Seq<char>| #[trigger] next.at(y) == h.at(y));
        assert forall|y: Seq<char>| #[trigger] next.at(y) == g.at(y) by {
            assert(h.at(y) == g.at(y));
        }
        lemma_known_outdated(g, next, names, j + 1, tm, log, k);
    }
}

// ── What holds of implicit rules ────────────────────────────────────────────

/// A target that has a recipe of its own, or double-colon rules, keeps them: no
/// pattern rule is looked for.
pub proof fn lemma_explicit_first(
    g: GraphView,
    target: Seq<char>,
    log: Seq<AnswerView>,
    k: nat,
)
    requires
        g.at(target).recipe.len() > 0 || g.at(target).dc_rules.len() > 0,
    ensures
        resolved(g, target, log, k) == Ok::<((bool, GraphView), nat), (StopView, nat)>(
            ((true, g), k),
        ),
{
}

/// A pattern rule that is applied matches the target, and gives it the stem, the
/// recipe and, with the stem in the place of `%`, all its prerequisites, behind
/// those that the target had.
pub proof fn lemma_resolved(g: GraphView, target: Seq<char>, log: Seq<AnswerView>, k: nat)
    requires
        g.at(target).recipe.len() == 0,
        g.at(target).dc_rules.len() == 0,
        g.pattern_rules.len() <= usize::MAX,
    ensures
        resolved(g, target, log, k) matches Ok(p) ==> {
            &&& !p.0.0 ==> p.0.1 == g
            &&& p.0.0 ==> {
                let e = p.0.1.at(target);
                let i = e.implicit_rule->Some_0 as int;
                let s = e.stem->Some_0;
                &&& e.implicit_rule is Some && e.stem is Some
                &&& 0 <= i < g.pattern_rules.len()
                &&& rule::stem(target, g.pattern_rules[i].target) == Some(s)
                &&& e.recipe == g.pattern_rules[i].recipe
                &&& g.at(target).prereqs.len() <= e.prereqs.len()
                &&& e.prereqs.take(g.at(target).prereqs.len() as int) == g.at(target).prereqs
                &&& forall|j: int|
                    0 <= j < g.pattern_rules[i].prereqs.len() ==> is_prereq(
                        e.prereqs,
                        rule::applied(#[trigger] g.pattern_rules[i].prereqs[j], s),
                    )
            }
        },
{
    lemma_applicable_matches(g, target, false, 0, log, k);
    if let Ok(p) = applicable(g, target, false, 0, log, k) {
        if let Some(found) = p.0 {
            let more = rule_prereqs(g.pattern_rules[found.0], found.1);
            lemma_merge_keeps(g.at(target).prereqs, more, more.len() as int);
            let e = with_rule(g.at(target), g.pattern_rules[found.0], found.0, found.1);
            assert forall|j: int| 0 <= j < g.pattern_rules[found.0].prereqs.len() implies is_prereq(
                e.prereqs,
                rule::applied(#[trigger] g.pattern_rules[found.0].prereqs[j], found.1),
            ) by {
                assert(more[j].name == rule::applied(
                    g.pattern_rules[found.0].prereqs[j],
                    found.1,
                ));
            }
        }
    }
}

proof fn lemma_applicable_matches(
    g: GraphView,
    target: Seq<char>,
    builtin: bool,
    i: int,
    log: Seq<AnswerView>,
    k: nat,
)
    requires
        0 <= i,
    ensures
        applicable(g, target, builtin, i, log, k) matches Ok(p) ==> (p.0 matches Some(found) ==> 0
            <= found.0 < g.pattern_rules.len() && rule::stem(
            target,
            g.pattern_rules[found.0].target,
        ) == Some(found.1)),
    decreases others_left(builtin), g.pattern_rules.len() - i,
{
    if i >= g.pattern_rules.len() {
        if !builtin {
            lemma_applicable_matches(g, target, true, 0, log, k);
        }
    } else if g.pattern_rules[i].is_builtin != builtin {
        lemma_applicable_matches(g, target, builtin, i + 1, log, k);
    } else {
        match rule::stem(target, g.pattern_rules[i].target) {
            None => {
                lemma_applicable_matches(g, target, builtin, i + 1, log, k);
            },
            Some(s) => {
                if let Ok(p) = all_satisfiable(g, i, 0, s, log, k) {
                    lemma_applicable_matches(g, target, builtin, i + 1, log, p.1);
                }
            },
        }
    }
}

/// Whether the rule at `j` is searched before the one at `i`: it is the makefile's
/// own and the other is built in, or they are alike and it comes first.
pub open spec fn sooner(rules: Seq<PatternRuleView>, j: int, i: int) -> bool {
    if rules[j].is_builtin == rules[i].is_builtin {
        j < i
    } else {
        rules[i].is_builtin
    }
}

/// Whether a rule was found not to apply to `target`: it does not match, or one
/// of its prerequisites can neither be found nor made.
pub open spec fn refused(g: GraphView, target: Seq<char>, j: int, log: Seq<AnswerView>) -> bool {
    match rule::stem(target, g.pattern_rules[j].target) {
        None => true,
        Some(s) => exists|k: nat|
            (#[trigger] all_satisfiable(g, j, 0, s, log, k)) matches Ok(p) && !p.0,
    }
}

/// The rule that is applied is the first one that applies: the makefile's own
/// rules come before all built-in ones, and otherwise rules come in the order in
/// which they stand.
pub proof fn lemma_own_rules_first(
    g: GraphView,
    target: Seq<char>,
    log: Seq<AnswerView>,
    k: nat,
)
    ensures
        applicable(g, target, false, 0, log, k) matches Ok(p) ==> (p.0 matches Some(found)
            ==> forall|j: int|
            0 <= j < g.pattern_rules.len() && #[trigger] sooner(g.pattern_rules, j, found.0)
                ==> refused(g, target, j, log)),
{
    lemma_searched(g, target, false, 0, log, k);
}

proof fn lemma_searched(
    g: GraphView,
    target: Seq<char>,
    builtin: bool,
    i: int,
    log: Seq<AnswerView>,
    k: nat,
)
    requires
        0 <= i,
    ensures
        applicable(g, target, builtin, i, log, k) matches Ok(p) ==> (p.0 matches Some(found) ==> {
            let rules = g.pattern_rules;
            &&& builtin ==> rules[found.0].is_builtin
            &&& forall|j: int|
                0 <= j < rules.len() && #[trigger] sooner(rules, j, found.0) && (
                rules[j].is_builtin == builtin ==> i <= j) && (builtin ==> rules[j].is_builtin)
                    ==> refused(g, target, j, log)
        }),
    decreases others_left(builtin), g.pattern_rules.len() - i,
{
    if i >= g.pattern_rules.len() {
        if !builtin {
            lemma_searched(g, target, true, 0, log, k);
        }
    } else if g.pattern_rules[i].is_builtin != builtin {
        lemma_searched(g, target, builtin, i + 1, log, k);
    } else {
        match rule::stem(target, g.pattern_rules[i].target) {
            None => {
                lemma_searched(g, target, builtin, i + 1, log, k);
            },
            Some(s) => {
                if let Ok(p) = all_satisfiable(g, i, 0, s, log, k) {
                    lemma_searched(g, target, builtin, i + 1, log, p.1);
                    if !p.0 {
                        assert(refused(g, target, i, log));
                    }
                }
            },
        }
    }
}

// ── What the lists hold ─────────────────────────────────────────────────────

/// The names of the prerequisites of a kind are those of the first list and then
/// those of the second, and a single prerequisite counts where it is of that kind.
pub proof fn lemma_names_of_kind(a: Seq<PrereqView>, b: Seq<PrereqView>, p: PrereqView)
    ensures
        normal_names(a + b) == normal_names(a) + normal_names(b),
        order_only_names(a + b) == order_only_names(a) + order_only_names(b),
        normal_names(seq![p]) == (if p.order_only {
            Seq::<Seq<char>>::empty()
        } else {
            seq![p.name]
        }),
        order_only_names(seq![p]) == (if p.order_only {
            seq![p.name]
        } else {
            Seq::<Seq<char>>::empty()
        }),
        normal_names(Seq::<PrereqView>::empty()) == Seq::<Seq<char>>::empty(),
        order_only_names(Seq::<PrereqView>::empty()) == Seq::<Seq<char>>::empty(),
{
    lemma_names_apart(a, b, b.len() as int, false);
    lemma_names_apart(a, b, b.len() as int, true);
    reveal_with_fuel(names_among, 3);
    assert(normal_names(seq![p]) =~= (if p.order_only {
        Seq::<Seq<char>>::empty()
    } else {
        seq![p.name]
    }));
    assert(order_only_names(seq![p]) =~= (if p.order_only {
        seq![p.name]
    } else {
        Seq::<Seq<char>>::empty()
    }));
}

proof fn lemma_names_apart(a: Seq<PrereqView>, b: Seq<PrereqView>, n: int, kind: bool)
    requires
        0 <= n <= b.len(),
    ensures
        names_among(a + b, a.len() + n, kind) == names_among(a, a.len() as int, kind) + names_among(
            b,
            n,
            kind,
        ),
    decreases n,
{
    let all = a + b;
    if n > 0 {
        lemma_names_apart(a, b, n - 1, kind);
        assert(all[a.len() + n - 1] == b[n - 1]);
        assert(names_among(all, a.len() + n, kind) =~= names_among(a, a.len() as int, kind)
            + names_among(b, n, kind));
    } else {
        lemma_names_same(a, all, a.len() as int, kind);
        assert(names_among(all, a.len() + n, kind) =~= names_among(a, a.len() as int, kind)
            + names_among(b, n, kind));
    }
}

proof fn lemma_names_same(a: Seq<PrereqView>, b: Seq<PrereqView>, n: int, kind: bool)
    requires
        0 <= n <= a.len(),
        n <= b.len(),
        forall|i: int| 0 <= i < n ==> a[i] == b[i],
    ensures
        names_among(a, n, kind) == names_among(b, n, kind),
    decreases n,
{
    if n > 0 {
        lemma_names_same(a, b, n - 1, kind);
    }
}

/// Whether a name is that of a normal prerequisite of a target, of one of its
/// double-colon rules or otherwise.
pub open spec fn compares(e: EntryView, name: Seq<char>) -> bool {
    ||| exists|i: int|
        0 <= i < e.prereqs.len() && !(#[trigger] e.prereqs[i]).order_only && e.prereqs[i].name
            == name
    ||| exists|j: int, i: int|
        0 <= j < e.dc_rules.len() && 0 <= i < e.dc_rules[j].prereqs.len() && !(
        #[trigger] e.dc_rules[j].prereqs[i]).order_only && e.dc_rules[j].prereqs[i].name == name
}

/// Whether a name is that of any prerequisite of a target.
pub open spec fn depends(e: EntryView, name: Seq<char>) -> bool {
    ||| exists|i: int| 0 <= i < e.prereqs.len() && (#[trigger] e.prereqs[i]).name == name
    ||| exists|j: int, i: int|
        0 <= j < e.dc_rules.len() && 0 <= i < e.dc_rules[j].prereqs.len() && (
        #[trigger] e.dc_rules[j].prereqs[i]).name == name
}

proof fn lemma_names_hold(list: Seq<PrereqView>, n: int, kind: bool, name: Seq<char>)
    requires
        0 <= n <= list.len(),
    ensures
        names_among(list, n, kind).contains(name) <==> exists|i: int|
            0 <= i < n && (#[trigger] list[i]).order_only == kind && list[i].name == name,
    decreases n,
{
    if n > 0 {
        lemma_names_hold(list, n - 1, kind, name);
        let before = names_among(list, n - 1, kind);
        text::lemma_push_contains(before, list[n - 1].name);
    }
}

proof fn lemma_rules_hold(list: Seq<RuleView>, n: int, p: PrereqView)
    requires
        0 <= n <= list.len(),
    ensures
        rules_prereqs(list, n).contains(p) <==> exists|j: int, i: int|
            0 <= j < n && 0 <= i < list[j].prereqs.len() && #[trigger] list[j].prereqs[i] == p,
    decreases n,
{
    if n > 0 {
        lemma_rules_hold(list, n - 1, p);
        let a = rules_prereqs(list, n - 1);
        let b = list[n - 1].prereqs;
        lemma_either_holds(a, b, p);
        if b.contains(p) {
            let i = choose|i: int| 0 <= i < b.len() && b[i] == p;
            assert(list[n - 1].prereqs[i] == p);
        }
        if exists|j: int, i: int|
            0 <= j < n && 0 <= i < list[j].prereqs.len() && #[trigger] list[j].prereqs[i] == p {
            let (j, i) = choose|j: int, i: int|
                0 <= j < n && 0 <= i < list[j].prereqs.len() && #[trigger] list[j].prereqs[i]
                    == p;
            if j == n - 1 {
                assert(b[i] == p);
            }
        }
    } else {
        assert(rules_prereqs(list, n).len() == 0);
    }
}

proof fn lemma_either_holds(a: Seq<PrereqView>, b: Seq<PrereqView>, p: PrereqView)
    ensures
        (a + b).contains(p) <==> a.contains(p) || b.contains(p),
{
    let all = a + b;
    if a.contains(p) {
        let i = choose|i: int| 0 <= i < a.len() && a[i] == p;
        assert(all[i] == p);
    }
    if b.contains(p) {
        let i = choose|i: int| 0 <= i < b.len() && b[i] == p;
        assert(all[a.len() + i] == p);
    }
    if all.contains(p) {
        let i = choose|i: int| 0 <= i < all.len() && all[i] == p;
        if i < a.len() {
            assert(a[i] == p);
        } else {
            assert(b[i - a.len()] == p);
        }
    }
}

/// What a target depends on are its prerequisites and those of all its double-colon
/// rules, and nothing else; those that are compared are the normal ones among them.
pub proof fn lemma_depends(e: EntryView, name: Seq<char>)
    ensures
        is_prereq(all_prereqs(e), name) <==> depends(e, name),
        normal_names(all_prereqs(e)).contains(name) <==> compares(e, name),
{
    let all = all_prereqs(e);
    let rest = rules_prereqs(e.dc_rules, e.dc_rules.len() as int);
    lemma_names_hold(all, all.len() as int, false, name);
    lemma_has_member(e, PrereqView { name, order_only: false });
    lemma_has_member(e, PrereqView { name, order_only: true });
    if is_prereq(all, name) {
        let i = choose|i: int| 0 <= i < all.len() && (#[trigger] all[i]).name == name;
        assert(all.contains(all[i]));
        assert(all[i] == (PrereqView { name, order_only: false }) || all[i] == (PrereqView {
            name,
            order_only: true,
        }));
    }
    if depends(e, name) {
        if exists|i: int| 0 <= i < e.prereqs.len() && (#[trigger] e.prereqs[i]).name == name {
            let i = choose|i: int| 0 <= i < e.prereqs.len() && (#[trigger] e.prereqs[i]).name == name;
            assert(all[i] == e.prereqs[i]);
        } else {
            let (j, i) = choose|j: int, i: int|
                0 <= j < e.dc_rules.len() && 0 <= i < e.dc_rules[j].prereqs.len() && (
                #[trigger] e.dc_rules[j].prereqs[i]).name == name;
            let p = e.dc_rules[j].prereqs[i];
            lemma_has_member(e, p);
            let n = choose|n: int| 0 <= n < all.len() && all[n] == p;
            assert(all[n].name == name);
        }
    }
    let q = PrereqView { name, order_only: false };
    assert(normal_names(all).contains(name) <==> all.contains(q)) by {
        if exists|i: int|
            0 <= i < all.len() && (#[trigger] all[i]).order_only == false && all[i].name == name {
            let i = choose|i: int|
                0 <= i < all.len() && (#[trigger] all[i]).order_only == false && all[i].name
                    == name;
            assert(all[i] == q);
        }
        if all.contains(q) {
            let i = choose|i: int| 0 <= i < all.len() && all[i] == q;
            assert(all[i].order_only == false);
        }
    }
    if compares(e, name) {
        if exists|i: int|
            0 <= i < e.prereqs.len() && !(#[trigger] e.prereqs[i]).order_only && e.prereqs[i].name
                == name {
            let i = choose|i: int|
                0 <= i < e.prereqs.len() && !(#[trigger] e.prereqs[i]).order_only
                    && e.prereqs[i].name == name;
            assert(e.prereqs[i] == q);
            assert(e.prereqs.contains(q));
        } else {
            let (j, i) = choose|j: int, i: int|
                0 <= j < e.dc_rules.len() && 0 <= i < e.dc_rules[j].prereqs.len() && !(
                #[trigger] e.dc_rules[j].prereqs[i]).order_only && e.dc_rules[j].prereqs[i].name
                    == name;
            assert(e.dc_rules[j].prereqs[i] == q);
        }
    }
}

proof fn lemma_has_member(e: EntryView, p: PrereqView)
    ensures
        all_prereqs(e).contains(p) <==> e.prereqs.contains(p) || exists|j: int, i: int|
            0 <= j < e.dc_rules.len() && 0 <= i < e.dc_rules[j].prereqs.len()
                && #[trigger] e.dc_rules[j].prereqs[i] == p,
{
    let rest = rules_prereqs(e.dc_rules, e.dc_rules.len() as int);
    lemma_rules_hold(e.dc_rules, e.dc_rules.len() as int, p);
    lemma_either_holds(e.prereqs, rest, p);
}

/// Merging adds only what was given, behind what was there, and no name twice.
pub proof fn lemma_merge_adds(have: Seq<PrereqView>, more: Seq<PrereqView>, n: int)
    requires
        0 <= n <= more.len(),
    ensures
        forall|i: int|
            have.len() <= i < merged_prereqs(have, more, n).len() ==> exists|j: int|
                0 <= j < n && #[trigger] more[j] == #[trigger] merged_prereqs(have, more, n)[i],
        forall|i: int, j: int|
            0 <= j < i && have.len() <= i < merged_prereqs(have, more, n).len() ==> (
            #[trigger] merged_prereqs(have, more, n)[i]).name != (#[trigger] merged_prereqs(
                have,
                more,
                n,
            )[j]).name,
    decreases n,
{
    if n > 0 {
        lemma_merge_adds(have, more, n - 1);
        lemma_merge_keeps(have, more, n - 1);
        let before = merged_prereqs(have, more, n - 1);
        let after = merged_prereqs(have, more, n);
        assert forall|i: int| have.len() <= i < after.len() implies exists|j: int|
            0 <= j < n && #[trigger] more[j] == #[trigger] after[i] by {
            if i < before.len() {
                assert(after[i] == before[i]);
                let j = choose|j: int| 0 <= j < n - 1 && #[trigger] more[j] == before[i];
                assert(more[j] == after[i]);
            } else {
                assert(more[n - 1] == after[i]);
            }
        }
        assert forall|i: int, j: int| 0 <= j < i && have.len() <= i < after.len() implies (
        #[trigger] after[i]).name != (#[trigger] after[j]).name by {
            if i < before.len() {
                assert(after[i] == before[i] && after[j] == before[j]);
            } else {
                assert(after[j] == before[j]);
            }
        }
    }
}

// ── When a target is stale ──────────────────────────────────────────────────

/// The time that an answer gives; none where the file is missing.
pub open spec fn time_in(a: AnswerView) -> Option<i128> {
    match a {
        AnswerView::Time(n) => Some(n),
        _ => None,
    }
}

/// A time that is known is not asked for; another is, once, under the name of the
/// target, and what is answered is kept.
pub proof fn lemma_mtime(g: GraphView, name: Seq<char>, log: Seq<AnswerView>, k: nat)
    ensures
        g.at(name).mtime matches Some(m) ==> (mtime_of(g, name, log, k) matches Ok(p) && p.1 == k
            && p.0.0 == m && p.0.1.at(name) == g.at(name)),
        g.at(name).mtime is None && k < log.len() ==> (mtime_of(g, name, log, k) matches Ok(p) && p.1
            == k + 1 && p.0.0 == time_in(log[k as int]) && p.0.1.at(name).mtime == Some(
            time_in(log[k as int]),
        )),
        g.at(name).mtime is None && k >= log.len() ==> mtime_of(g, name, log, k) == Err::<
            ((Option<i128>, GraphView), nat),
            (StopView, nat),
        >((StopView::Ask(QueryView::ModTime(name)), k)),
{
}

/// Whether a graph differs from another only in times that the answers from `k` up
/// to `n` have given, for targets whose times were not known.
pub open spec fn only_times(
    g: GraphView,
    h: GraphView,
    log: Seq<AnswerView>,
    k: nat,
    n: nat,
) -> bool {
    &&& k <= n
    &&& h == (GraphView { entries: h.entries, ..g })
    &&& forall|x: Seq<char>| #[trigger]
        h.at(x) == (EntryView { mtime: h.at(x).mtime, ..g.at(x) })
    &&& forall|x: Seq<char>| g.at(x).mtime is Some ==> #[trigger] h.at(x).mtime == g.at(x).mtime
    &&& forall|x: Seq<char>|
        g.at(x).mtime is None && #[trigger] h.at(x).mtime is Some ==> exists|q: int|
            k <= q < n && q < log.len() && h.at(x).mtime == Some(time_in(#[trigger] log[q]))
}

proof fn lemma_only_times_through(
    g: GraphView,
    h: GraphView,
    f: GraphView,
    log: Seq<AnswerView>,
    k: nat,
    m: nat,
    n: nat,
)
    requires
        only_times(g, h, log, k, m),
        only_times(h, f, log, m, n),
    ensures
        only_times(g, f, log, k, n),
{
    assert forall|x: Seq<char>| #[trigger] f.at(x) == (EntryView {
        mtime: f.at(x).mtime,
        ..g.at(x)
    }) by {
        assert(h.at(x) == (EntryView { mtime: h.at(x).mtime, ..g.at(x) }));
    }
    assert forall|x: Seq<char>| g.at(x).mtime is Some implies #[trigger] f.at(x).mtime == g.at(
        x,
    ).mtime by {
        assert(h.at(x).mtime == g.at(x).mtime);
    }
    assert forall|x: Seq<char>|
        g.at(x).mtime is None && #[trigger] f.at(x).mtime is Some implies exists|q: int|
        k <= q < n && q < log.len() && f.at(x).mtime == Some(time_in(#[trigger] log[q])) by {
        if h.at(x).mtime is Some {
            assert(f.at(x).mtime == h.at(x).mtime);
            let q = choose|q: int|
                k <= q < m && q < log.len() && h.at(x).mtime == Some(time_in(#[trigger] log[q]));
            assert(f.at(x).mtime == Some(time_in(log[q])));
        } else {
            let q = choose|q: int|
                m <= q < n && q < log.len() && f.at(x).mtime == Some(time_in(#[trigger] log[q]));
            assert(f.at(x).mtime == Some(time_in(log[q])));
        }
    }
}

proof fn lemma_one_time(g: GraphView, name: Seq<char>, log: Seq<AnswerView>, k: nat)
    ensures
        mtime_of(g, name, log, k) matches Ok(p) ==> {
            &&& only_times(g, p.0.1, log, k, p.1)
            &&& p.0.1.at(name).mtime == Some(p.0.0)
        },
{
    if let Ok(p) = mtime_of(g, name, log, k) {
        let h = p.0.1;
        assert forall|x: Seq<char>| #[trigger] h.at(x) == (EntryView {
            mtime: h.at(x).mtime,
            ..g.at(x)
        }) by {
            if x != name {
                assert(h.at(x) == g.at(x));
            }
        }
        assert forall|x: Seq<char>|
            g.at(x).mtime is None && #[trigger] h.at(x).mtime is Some implies exists|q: int|
            k <= q < p.1 && q < log.len() && h.at(x).mtime == Some(time_in(#[trigger] log[q])) by {
            if x != name {
                assert(h.at(x) == g.at(x));
            } else {
                assert(h.at(x).mtime == Some(time_in(log[k as int])));
            }
        }
    }
}

/// Whether a time, where it is known, calls for a rebuild of a target of time `tm`.
pub open spec fn calls(m: Option<Option<i128>>, tm: i128) -> bool {
    match m {
        Some(None) => true,
        Some(Some(pm)) => pm > tm,
        None => false,
    }
}

proof fn lemma_outdated_times(
    g: GraphView,
    names: Seq<Seq<char>>,
    j: int,
    tm: i128,
    log: Seq<AnswerView>,
    k: nat,
)
    requires
        0 <= j <= names.len(),
    ensures
        outdated(g, names, j, tm, log, k) matches Ok(p) ==> {
            let h = p.0.1;
            &&& only_times(g, h, log, k, p.1)
            &&& p.0.0 ==> exists|n: int|
                j <= n < names.len() && calls(h.at(#[trigger] names[n]).mtime, tm)
            &&& !p.0.0 ==> forall|n: int|
                j <= n < names.len() ==> h.at(#[trigger] names[n]).mtime is Some && !calls(
                    h.at(names[n]).mtime,
                    tm,
                )
        },
        outdated(g, names, j, tm, log, k) matches Err(e) ==> {
            &&& e.1 >= log.len()
            &&& exists|n: int|
                j <= n < names.len() && e.0 == StopView::Ask(
                    QueryView::ModTime(#[trigger] names[n]),
                ) && g.at(names[n]).mtime is None
        },
    decreases names.len() - j,
{
    if j < names.len() {
        let x = names[j];
        lemma_one_time(g, x, log, k);
        if let Ok(p) = mtime_of(g, x, log, k) {
            let h = p.0.1;
            lemma_outdated_times(h, names, j + 1, tm, log, p.1);
            if let Ok(q) = outdated(g, names, j, tm, log, k) {
                if calls(Some(p.0.0), tm) {
                    assert(calls(h.at(names[j]).mtime, tm));
                } else {
                    let f = q.0.1;
                    lemma_only_times_through(g, h, f, log, k, p.1, q.1);
                    assert(f.at(names[j]).mtime == h.at(names[j]).mtime);
                    if q.0.0 {
                        let n = choose|n: int|
                            j + 1 <= n < names.len() && calls(f.at(#[trigger] names[n]).mtime, tm);
                        assert(calls(f.at(names[n]).mtime, tm));
                    }
                }
            }
            if let Err(e) = outdated(g, names, j, tm, log, k) {
                let n = choose|n: int|
                    j + 1 <= n < names.len() && e.0 == StopView::Ask(
                        QueryView::ModTime(#[trigger] names[n]),
                    ) && h.at(names[n]).mtime is None;
                assert(h.at(names[n]).mtime is None);
                assert(e.0 == StopView::Ask(QueryView::ModTime(names[n])));
            }
        } else {
            assert(g.at(names[j]).mtime is None);
        }
    } else {
        assert forall|x: Seq<char>| #[trigger] g.at(x) == (EntryView {
            mtime: g.at(x).mtime,
            ..g.at(x)
        }) by {}
    }
}

/// A target that is not phony has to be rebuilt exactly where its file is missing, or
/// the time of one of its normal prerequisites, wherever it stands among them, is
/// missing or greater than its own. The times are those that were known before and,
/// for the others, those that were answered; each that was needed is known
/// afterwards. Where the target is up to date, every normal prerequisite has a time,
/// and none is greater.
pub proof fn lemma_stale_exactly(g: GraphView, target: Seq<char>, log: Seq<AnswerView>, k: nat)
    requires
        !g.at(target).phony,
    ensures
        stale(g, target, log, k) matches Ok(p) ==> {
            let h = p.0.1;
            &&& only_times(g, h, log, k, p.1)
            &&& h.at(target).mtime is Some
            &&& h.at(target).mtime == Some(None::<i128>) ==> p.0.0
            &&& h.at(target).mtime matches Some(Some(tm)) ==> {
                &&& p.0.0 ==> exists|x: Seq<char>|
                    compares(g.at(target), x) && #[trigger] calls(h.at(x).mtime, tm)
                &&& !p.0.0 ==> forall|x: Seq<char>| #[trigger]
                    compares(g.at(target), x) ==> (h.at(x).mtime matches Some(Some(pm)) && pm
                        <= tm)
            }
        },
        stale(g, target, log, k) matches Err(e) ==> {
            &&& e.1 >= log.len()
            &&& exists|x: Seq<char>|
                (x == target || compares(g.at(target), x)) && (#[trigger] g.at(x)).mtime is None
                    && e.0 == StopView::Ask(QueryView::ModTime(x))
        },
{
    lemma_one_time(g, target, log, k);
    if let Ok(p) = mtime_of(g, target, log, k) {
        let h = p.0.1;
        let e = g.at(target);
        assert(h.at(target) == (EntryView { mtime: h.at(target).mtime, ..e }));
        let names = normal_names(all_prereqs(h.at(target)));
        assert(all_prereqs(h.at(target)) == all_prereqs(e));
        if let Some(tm) = p.0.0 {
            lemma_outdated_times(h, names, 0, tm, log, p.1);
            if let Ok(q) = outdated(h, names, 0, tm, log, p.1) {
                let f = q.0.1;
                lemma_only_times_through(g, h, f, log, k, p.1, q.1);
                assert(f.at(target).mtime == h.at(target).mtime);
                if q.0.0 {
                    let n = choose|n: int|
                        0 <= n < names.len() && calls(f.at(#[trigger] names[n]).mtime, tm);
                    lemma_depends(e, names[n]);
                    assert(names.contains(names[n]));
                    assert(compares(e, names[n]));
                } else {
                    assert forall|x: Seq<char>| #[trigger] compares(e, x) implies (f.at(
                        x,
                    ).mtime matches Some(Some(pm)) && pm <= tm) by {
                        lemma_depends(e, x);
                        let n = choose|n: int| 0 <= n < names.len() && names[n] == x;
                        assert(!calls(f.at(names[n]).mtime, tm));
                    }
                }
            }
            if let Err(s) = outdated(h, names, 0, tm, log, p.1) {
                let n = choose|n: int|
                    0 <= n < names.len() && s.0 == StopView::Ask(
                        QueryView::ModTime(#[trigger] names[n]),
                    ) && h.at(names[n]).mtime is None;
                lemma_depends(e, names[n]);
                assert(names.contains(names[n]));
                assert(compares(e, names[n]));
                assert(h.at(names[n]).mtime is None);
                assert(g.at(names[n]).mtime is None);
            }
        }
    }
}

// ── When a pattern rule applies ─────────────────────────────────────────────

/// Whether the answers from `a` up to `a + n` all say yes.
pub open spec fn all_yes(log: Seq<AnswerView>, a: int, n: int) -> bool {
    &&& 0 <= a
    &&& n > 0 ==> a + n <= log.len()
    &&& forall|i: int| a <= i < a + n ==> #[trigger] log[i] == AnswerView::Flag(true)
}

/// Each prerequisite is asked for, under its name with the stem in the place of `%`,
/// as long as all before it exist; all exist exactly where every answer says yes.
pub proof fn lemma_each_asked(
    prereqs: Seq<Seq<char>>,
    j: int,
    stem: Seq<char>,
    log: Seq<AnswerView>,
    k: nat,
)
    requires
        0 <= j <= prereqs.len(),
    ensures
        match all_exist(prereqs, j, stem, log, k) {
            Ok(p) => {
                &&& p.0 ==> p.1 == k + (prereqs.len() - j) && all_yes(
                    log,
                    k as int,
                    prereqs.len() - j,
                )
                &&& !p.0 ==> k < p.1 <= k + (prereqs.len() - j) && p.1 <= log.len() && all_yes(
                    log,
                    k as int,
                    p.1 - 1 - k,
                ) && log[p.1 - 1] != AnswerView::Flag(true)
            },
            Err(e) => {
                let n = e.1 - k;
                &&& 0 <= n < prereqs.len() - j
                &&& e.1 >= log.len()
                &&& n > 0 ==> all_yes(log, k as int, n)
                &&& e.0 == StopView::Ask(QueryView::Exists(rule::applied(prereqs[j + n], stem)))
            },
        },
    decreases prereqs.len() - j,
{
    if j < prereqs.len() && k < log.len() {
        lemma_each_asked(prereqs, j + 1, stem, log, k + 1);
        if world::says_yes(log[k as int]) {
            assert(log[k as int] == AnswerView::Flag(true));
            match all_exist(prereqs, j + 1, stem, log, k + 1) {
                Ok(p) => {
                    if p.0 {
                        assert(all_yes(log, k as int + 1, prereqs.len() - j - 1));
                        assert(all_yes(log, k as int, prereqs.len() - j));
                    } else {
                        assert(all_yes(log, k as int + 1, p.1 - 1 - (k + 1)));
                        assert(all_yes(log, k as int, p.1 - 1 - k));
                    }
                },
                Err(e) => {
                    let n = e.1 - (k + 1);
                    if n > 0 {
                        assert(all_yes(log, k as int + 1, n));
                    }
                    assert(all_yes(log, k as int, n + 1));
                },
            }
        }
    }
}

/// Whether the rule at `m` comes later in the search than the one at `i`.
pub open spec fn later(rules: Seq<PatternRuleView>, builtin: bool, i: int, m: int) -> bool {
    &&& 0 <= m < rules.len()
    &&& if rules[m].is_builtin == builtin {
        i <= m
    } else {
        rules[m].is_builtin
    }
}

/// Whether the rule at `m` makes a file out of files that answers between `a` and `b`
/// say exist.
pub open spec fn makes_from(
    rules: Seq<PatternRuleView>,
    m: int,
    name: Seq<char>,
    log: Seq<AnswerView>,
    a: int,
    b: int,
) -> bool {
    rule::stem(name, rules[m].target) is Some && exists|c: int|
        a <= c && c + rules[m].prereqs.len() <= b && #[trigger] all_yes(
            log,
            c,
            rules[m].prereqs.len() as int,
        )
}

/// Whether the rule at `m` does not make a file: it does not match, or an answer
/// between `a` and `b` says that one of its prerequisites does not exist.
pub open spec fn makes_not(
    rules: Seq<PatternRuleView>,
    m: int,
    name: Seq<char>,
    log: Seq<AnswerView>,
    a: int,
    b: int,
) -> bool {
    rule::stem(name, rules[m].target) is Some ==> rules[m].prereqs.len() > 0 && exists|c: int|
        a <= c < b && c < log.len() && #[trigger] log[c] != AnswerView::Flag(true)
}

proof fn lemma_can_build_exactly(
    rules: Seq<PatternRuleView>,
    builtin: bool,
    i: int,
    name: Seq<char>,
    log: Seq<AnswerView>,
    k: nat,
)
    requires
        0 <= i,
    ensures
        can_build(rules, builtin, i, name, log, k) matches Ok(p) ==> {
            &&& k <= p.1
            &&& p.0 ==> exists|m: int|
                #[trigger] later(rules, builtin, i, m) && makes_from(
                    rules,
                    m,
                    name,
                    log,
                    k as int,
                    p.1 as int,
                )
            &&& !p.0 ==> forall|m: int| #[trigger]
                later(rules, builtin, i, m) ==> makes_not(
                    rules,
                    m,
                    name,
                    log,
                    k as int,
                    p.1 as int,
                )
        },
    decreases others_left(builtin), rules.len() - i,
{
    if i >= rules.len() {
        if !builtin {
            lemma_can_build_exactly(rules, true, 0, name, log, k);
            if let Ok(p) = can_build(rules, builtin, i, name, log, k) {
                if p.0 {
                    let m = choose|m: int|
                        #[trigger] later(rules, true, 0, m) && makes_from(
                            rules,
                            m,
                            name,
                            log,
                            k as int,
                            p.1 as int,
                        );
                    assert(later(rules, builtin, i, m));
                } else {
                    assert forall|m: int| #[trigger] later(rules, builtin, i, m) implies makes_not(
                        rules,
                        m,
                        name,
                        log,
                        k as int,
                        p.1 as int,
                    ) by {
                        assert(later(rules, true, 0, m));
                    }
                }
            }
        }
    } else if rules[i].is_builtin != builtin {
        lemma_can_build_exactly(rules, builtin, i + 1, name, log, k);
        lemma_go_on(rules, builtin, i, name, log, k, k);
    } else {
        match rule::stem(name, rules[i].target) {
            None => {
                lemma_can_build_exactly(rules, builtin, i + 1, name, log, k);
                lemma_go_on(rules, builtin, i, name, log, k, k);
            },
            Some(s) => {
                lemma_each_asked(rules[i].prereqs, 0, s, log, k);
                if let Ok(q) = all_exist(rules[i].prereqs, 0, s, log, k) {
                    if q.0 {
                        assert(later(rules, builtin, i, i));
                        assert(all_yes(log, k as int, rules[i].prereqs.len() as int));
                    } else {
                        lemma_can_build_exactly(rules, builtin, i + 1, name, log, q.1);
                        assert(log[q.1 - 1] != AnswerView::Flag(true));
                        lemma_go_on(rules, builtin, i, name, log, k, q.1);
                    }
                }
            },
        }
    }
}

proof fn lemma_go_on(
    rules: Seq<PatternRuleView>,
    builtin: bool,
    i: int,
    name: Seq<char>,
    log: Seq<AnswerView>,
    k: nat,
    n: nat,
)
    requires
        0 <= i < rules.len(),
        k <= n,
        can_build(rules, builtin, i + 1, name, log, n) matches Ok(p) ==> {
            &&& n <= p.1
            &&& p.0 ==> exists|m: int|
                #[trigger] later(rules, builtin, i + 1, m) && makes_from(
                    rules,
                    m,
                    name,
                    log,
                    n as int,
                    p.1 as int,
                )
            &&& !p.0 ==> forall|m: int| #[trigger]
                later(rules, builtin, i + 1, m) ==> makes_not(
                    rules,
                    m,
                    name,
                    log,
                    n as int,
                    p.1 as int,
                )
        },
        rules[i].is_builtin == builtin && rule::stem(name, rules[i].target) is Some ==> k < n
            && rules[i].prereqs.len() > 0 && n <= log.len() && log[n - 1] != AnswerView::Flag(
            true,
        ),
    ensures
        can_build(rules, builtin, i + 1, name, log, n) matches Ok(p) ==> {
            &&& k <= p.1
            &&& p.0 ==> exists|m: int|
                #[trigger] later(rules, builtin, i, m) && makes_from(
                    rules,
                    m,
                    name,
                    log,
                    k as int,
                    p.1 as int,
                )
            &&& !p.0 ==> forall|m: int| #[trigger]
                later(rules, builtin, i, m) ==> makes_not(
                    rules,
                    m,
                    name,
                    log,
                    k as int,
                    p.1 as int,
                )
        },
{
    if let Ok(p) = can_build(rules, builtin, i + 1, name, log, n) {
        if p.0 {
            let m = choose|m: int|
                #[trigger] later(rules, builtin, i + 1, m) && makes_from(
                    rules,
                    m,
                    name,
                    log,
                    n as int,
                    p.1 as int,
                );
            assert(later(rules, builtin, i, m));
            let c = choose|c: int|
                n <= c && c + rules[m].prereqs.len() <= p.1 && #[trigger] all_yes(
                    log,
                    c,
                    rules[m].prereqs.len() as int,
                );
            assert(all_yes(log, c, rules[m].prereqs.len() as int));
            assert(makes_from(rules, m, name, log, k as int, p.1 as int));
        } else {
            assert forall|m: int| #[trigger] later(rules, builtin, i, m) implies makes_not(
                rules,
                m,
                name,
                log,
                k as int,
                p.1 as int,
            ) by {
                if m == i && rules[i].is_builtin == builtin {
                    if rule::stem(name, rules[i].target) is Some {
                        assert(log[n - 1] != AnswerView::Flag(true));
                    }
                } else {
                    assert(later(rules, builtin, i + 1, m));
                    if rule::stem(name, rules[m].target) is Some {
                        let c = choose|c: int|
                            n <= c < p.1 && c < log.len() && #[trigger] log[c]
                                != AnswerView::Flag(true);
                        assert(log[c] != AnswerView::Flag(true));
                    }
                }
            }
        }
    }
}

/// Whether a prerequisite of the rule at `i` can be had, as the answers from `a` up to
/// `b` say: the first of them says that it exists, or it is a target, or a rule that
/// comes later makes it out of files that exist.
pub open spec fn to_be_had(
    g: GraphView,
    i: int,
    name: Seq<char>,
    log: Seq<AnswerView>,
    a: int,
    b: int,
) -> bool {
    &&& 0 <= a < b
    &&& a < log.len()
    &&& {
        ||| log[a] == AnswerView::Flag(true)
        ||| g.has(name)
        ||| exists|m: int|
            #[trigger] later(g.pattern_rules, g.pattern_rules[i].is_builtin, i + 1, m)
                && makes_from(g.pattern_rules, m, name, log, a + 1, b)
    }
}

/// Whether a prerequisite of the rule at `i` cannot be had, as the answers from `a` up
/// to `b` say.
pub open spec fn not_to_be_had(
    g: GraphView,
    i: int,
    name: Seq<char>,
    log: Seq<AnswerView>,
    a: int,
    b: int,
) -> bool {
    &&& 0 <= a < b
    &&& a < log.len()
    &&& log[a] != AnswerView::Flag(true)
    &&& !g.has(name)
    &&& forall|m: int| #[trigger]
        later(g.pattern_rules, g.pattern_rules[i].is_builtin, i + 1, m) ==> makes_not(
            g.pattern_rules,
            m,
            name,
            log,
            a + 1,
            b,
        )
}

/// Whether the prerequisites of the rule at `i` from position `j` on can all be had:
/// the answers for each begin where `at` says, and end where those for the next begin.
pub open spec fn all_to_be_had(
    g: GraphView,
    i: int,
    j: int,
    stem: Seq<char>,
    log: Seq<AnswerView>,
    at: Seq<int>,
) -> bool {
    let prereqs = g.pattern_rules[i].prereqs;
    &&& at.len() == prereqs.len() - j + 1
    &&& forall|n: int|
        j <= n < prereqs.len() ==> to_be_had(
            g,
            i,
            rule::applied(#[trigger] prereqs[n], stem),
            log,
            at[n - j],
            at[n - j + 1],
        )
}

/// A rule is found to apply exactly where each of its prerequisites, at every position,
/// can be had, and found not to apply exactly where one of them cannot.
pub proof fn lemma_satisfiable(
    g: GraphView,
    i: int,
    j: int,
    stem: Seq<char>,
    log: Seq<AnswerView>,
    k: nat,
)
    requires
        0 <= i < g.pattern_rules.len(),
        0 <= j <= g.pattern_rules[i].prereqs.len(),
    ensures
        all_satisfiable(g, i, j, stem, log, k) matches Ok(p) ==> {
            &&& p.0 ==> exists|at: Seq<int>| #[trigger]
                all_to_be_had(g, i, j, stem, log, at) && at[0] == k && at.last() == p.1
            &&& !p.0 ==> exists|n: int, a: int|
                j <= n < g.pattern_rules[i].prereqs.len() && k <= a && #[trigger] not_to_be_had(
                    g,
                    i,
                    rule::applied(g.pattern_rules[i].prereqs[n], stem),
                    log,
                    a,
                    p.1 as int,
                )
        },
    decreases g.pattern_rules[i].prereqs.len() - j,
{
    let rules = g.pattern_rules;
    let prereqs = rules[i].prereqs;
    if j < prereqs.len() {
        if k < log.len() {
            let name = rule::applied(prereqs[j], stem);
            if log[k as int] == AnswerView::Flag(true) || g.has(name) {
                lemma_satisfiable(g, i, j + 1, stem, log, k + 1);
                lemma_had_first(g, i, j, stem, log, k, k + 1);
            } else {
                let builtin = rules[i].is_builtin;
                lemma_can_build_exactly(rules, builtin, i + 1, name, log, k + 1);
                if let Ok(q) = can_build(rules, builtin, i + 1, name, log, k + 1) {
                    if q.0 {
                        lemma_satisfiable(g, i, j + 1, stem, log, q.1);
                        lemma_had_first(g, i, j, stem, log, k, q.1);
                    } else {
                        assert(not_to_be_had(g, i, name, log, k as int, q.1 as int));
                    }
                }
            }
        }
    } else {
        let at = seq![k as int];
        assert(all_to_be_had(g, i, j, stem, log, at));
        assert(at.last() == k);
    }
}

proof fn lemma_had_first(
    g: GraphView,
    i: int,
    j: int,
    stem: Seq<char>,
    log: Seq<AnswerView>,
    k: nat,
    n: nat,
)
    requires
        0 <= i < g.pattern_rules.len(),
        0 <= j < g.pattern_rules[i].prereqs.len(),
        k < n,
        to_be_had(
            g,
            i,
            rule::applied(g.pattern_rules[i].prereqs[j], stem),
            log,
            k as int,
            n as int,
        ),
        all_satisfiable(g, i, j + 1, stem, log, n) matches Ok(p) ==> {
            &&& p.0 ==> exists|at: Seq<int>| #[trigger]
                all_to_be_had(g, i, j + 1, stem, log, at) && at[0] == n && at.last() == p.1
            &&& !p.0 ==> exists|m: int, a: int|
                j + 1 <= m < g.pattern_rules[i].prereqs.len() && n <= a
                    && #[trigger] not_to_be_had(
                    g,
                    i,
                    rule::applied(g.pattern_rules[i].prereqs[m], stem),
                    log,
                    a,
                    p.1 as int,
                )
        },
    ensures
        all_satisfiable(g, i, j + 1, stem, log, n) matches Ok(p) ==> {
            &&& p.0 ==> exists|at: Seq<int>| #[trigger]
                all_to_be_had(g, i, j, stem, log, at) && at[0] == k && at.last() == p.1
            &&& !p.0 ==> exists|m: int, a: int|
                j <= m < g.pattern_rules[i].prereqs.len() && k <= a && #[trigger] not_to_be_had(
                    g,
                    i,
                    rule::applied(g.pattern_rules[i].prereqs[m], stem),
                    log,
                    a,
                    p.1 as int,
                )
        },
{
    let prereqs = g.pattern_rules[i].prereqs;
    if let Ok(p) = all_satisfiable(g, i, j + 1, stem, log, n) {
        if p.0 {
            let rest = choose|at: Seq<int>| #[trigger]
                all_to_be_had(g, i, j + 1, stem, log, at) && at[0] == n && at.last() == p.1;
            let at = seq![k as int] + rest;
            assert forall|m: int| j <= m < prereqs.len() implies to_be_had(
                g,
                i,
                rule::applied(#[trigger] prereqs[m], stem),
                log,
                at[m - j],
                at[m - j + 1],
            ) by {
                if m > j {
                    assert(at[m - j] == rest[m - (j + 1)]);
                    assert(at[m - j + 1] == rest[m - (j + 1) + 1]);
                } else {
                    assert(at[1] == rest[0]);
                }
            }
            assert(all_to_be_had(g, i, j, stem, log, at));
            assert(at.last() == rest.last());
        } else {
            let (m, a) = choose|m: int, a: int|
                j + 1 <= m < g.pattern_rules[i].prereqs.len() && n <= a
                    && #[trigger] not_to_be_had(
                    g,
                    i,
                    rule::applied(g.pattern_rules[i].prereqs[m], stem),
                    log,
                    a,
                    p.1 as int,
                );
            assert(not_to_be_had(
                g,
                i,
                rule::applied(g.pattern_rules[i].prereqs[m], stem),
                log,
                a,
                p.1 as int,
            ));
        }
    }
}

/// The rule that is applied matches the target, and every prerequisite that it brings in
/// exists, is a target, or is made by a later rule out of files that exist.
pub proof fn lemma_applied_rule(
    g: GraphView,
    target: Seq<char>,
    log: Seq<AnswerView>,
    k: nat,
)
    ensures
        applicable(g, target, false, 0, log, k) matches Ok(p) ==> (p.0 matches Some(found) ==> {
            &&& 0 <= found.0 < g.pattern_rules.len()
            &&& rule::stem(target, g.pattern_rules[found.0].target) == Some(found.1)
            &&& exists|at: Seq<int>| #[trigger]
                all_to_be_had(g, found.0, 0, found.1, log, at) && at.last() == p.1
        }),
{
    lemma_applied_from(g, target, false, 0, log, k);
}

proof fn lemma_applied_from(
    g: GraphView,
    target: Seq<char>,
    builtin: bool,
    i: int,
    log: Seq<AnswerView>,
    k: nat,
)
    requires
        0 <= i,
    ensures
        applicable(g, target, builtin, i, log, k) matches Ok(p) ==> (p.0 matches Some(found) ==> {
            &&& 0 <= found.0 < g.pattern_rules.len()
            &&& rule::stem(target, g.pattern_rules[found.0].target) == Some(found.1)
            &&& exists|at: Seq<int>| #[trigger]
                all_to_be_had(g, found.0, 0, found.1, log, at) && at.last() == p.1
        }),
    decreases others_left(builtin), g.pattern_rules.len() - i,
{
    if i >= g.pattern_rules.len() {
        if !builtin {
            lemma_applied_from(g, target, true, 0, log, k);
        }
    } else if g.pattern_rules[i].is_builtin != builtin {
        lemma_applied_from(g, target, builtin, i + 1, log, k);
    } else {
        match rule::stem(target, g.pattern_rules[i].target) {
            None => {
                lemma_applied_from(g, target, builtin, i + 1, log, k);
            },
            Some(s) => {
                lemma_satisfiable(g, i, 0, s, log, k);
                if let Ok(p) = all_satisfiable(g, i, 0, s, log, k) {
                    lemma_applied_from(g, target, builtin, i + 1, log, p.1);
                }
            },
        }
    }
}

/// Whether a rule was found not to apply: it does not match, or one of its
/// prerequisites cannot be had.
pub open spec fn turned_down(g: GraphView, target: Seq<char>, j: int, log: Seq<AnswerView>) -> bool {
    match rule::stem(target, g.pattern_rules[j].target) {
        None => true,
        Some(s) => exists|n: int, a: int, b: int|
            0 <= n < g.pattern_rules[j].prereqs.len() && #[trigger] not_to_be_had(
                g,
                j,
                rule::applied(g.pattern_rules[j].prereqs[n], s),
                log,
                a,
                b,
            ),
    }
}

/// Where no rule is found, every rule was turned down; where one is, all that are
/// searched before it were: the makefile's own come before the built-in ones, and
/// otherwise they come in the order in which they stand.
pub proof fn lemma_turned_down(g: GraphView, target: Seq<char>, log: Seq<AnswerView>, k: nat)
    ensures
        applicable(g, target, false, 0, log, k) matches Ok(p) ==> match p.0 {
            Some(found) => forall|j: int|
                0 <= j < g.pattern_rules.len() && (if g.pattern_rules[j].is_builtin
                    == g.pattern_rules[found.0].is_builtin {
                    j < found.0
                } else {
                    !g.pattern_rules[j].is_builtin
                }) ==> #[trigger] turned_down(g, target, j, log),
            None => forall|j: int|
                0 <= j < g.pattern_rules.len() ==> #[trigger] turned_down(g, target, j, log),
        },
{
    lemma_turned_down_from(g, target, false, 0, log, k);
}

proof fn lemma_turned_down_from(
    g: GraphView,
    target: Seq<char>,
    builtin: bool,
    i: int,
    log: Seq<AnswerView>,
    k: nat,
)
    requires
        0 <= i,
    ensures
        applicable(g, target, builtin, i, log, k) matches Ok(p) ==> match p.0 {
            Some(found) => {
                &&& 0 <= found.0 < g.pattern_rules.len()
                &&& builtin ==> g.pattern_rules[found.0].is_builtin
                &&& g.pattern_rules[found.0].is_builtin == builtin ==> i <= found.0
                &&& forall|j: int|
                    later(g.pattern_rules, builtin, i, j) && (if g.pattern_rules[j].is_builtin
                        == g.pattern_rules[found.0].is_builtin {
                        j < found.0
                    } else {
                        !g.pattern_rules[j].is_builtin
                    }) ==> #[trigger] turned_down(g, target, j, log)
            },
            None => forall|j: int|
                later(g.pattern_rules, builtin, i, j) ==> #[trigger] turned_down(
                    g,
                    target,
                    j,
                    log,
                ),
        },
    decreases others_left(builtin), g.pattern_rules.len() - i,
{
    if i >= g.pattern_rules.len() {
        if !builtin {
            lemma_turned_down_from(g, target, true, 0, log, k);
        }
    } else if g.pattern_rules[i].is_builtin != builtin {
        lemma_turned_down_from(g, target, builtin, i + 1, log, k);
    } else {
        match rule::stem(target, g.pattern_rules[i].target) {
            None => {
                assert(turned_down(g, target, i, log));
                lemma_turned_down_from(g, target, builtin, i + 1, log, k);
            },
            Some(s) => {
                lemma_satisfiable(g, i, 0, s, log, k);
                if let Ok(p) = all_satisfiable(g, i, 0, s, log, k) {
                    if !p.0 {
                        assert(turned_down(g, target, i, log));
                    }
                    lemma_turned_down_from(g, target, builtin, i + 1, log, p.1);
                }
            },
        }
    }
}

/// Where a rule is applied, the target gets its recipe, and the rest of what was known of
/// it stays, as does every other target and every rule.
pub proof fn lemma_resolved_rest(
    g: GraphView,
    target: Seq<char>,
    other: Seq<char>,
    log: Seq<AnswerView>,
    k: nat,
)
    requires
        other != target,
    ensures
        resolved(g, target, log, k) matches Ok(p) ==> {
            let h = p.0.1;
            &&& h.at(other) == g.at(other)
            &&& h.pattern_rules == g.pattern_rules
            &&& h.default_recipe == g.default_recipe
            &&& h.at(target).phony == g.at(target).phony
            &&& h.at(target).dc_rules == g.at(target).dc_rules
            &&& h.at(target).loc == g.at(target).loc
            &&& h.at(target).mtime == g.at(target).mtime
            &&& h.at(target).target_vars == g.at(target).target_vars
        },
{
}

/// The library and the member of an archive member, put together again with brackets,
/// are the target; a name without a `(`, or with something behind the last `)`, is none.
pub proof fn lemma_archive(lib: Seq<char>, member: Seq<char>, s: Seq<char>)
    ensures
        !lib.contains('(') ==> archive_parts(lib + seq!['('] + member + seq![')']) == Some(
            (lib, member),
        ),
        !s.contains('(') || s.last() != ')' ==> archive_parts(s) is None,
{
    s.index_of_first_ensures('(');
    let t = lib + seq!['('] + member + seq![')'];
    let n = lib.len() as int;
    t.index_of_first_ensures('(');
    assert(t[n] == '(');
    assert(t.contains('('));
    if !lib.contains('(') {
        let p = t.index_of_first('(')->Some_0;
        assert(p == n) by {
            if p < n {
                assert(lib[p] == '(');
            }
        }
        assert(t.last() == ')');
        assert(t.take(n) =~= lib);
        assert(t.subrange(n + 1, t.len() - 1) =~= member);
    }
}

/// Nothing but goals, and what they need, gets into a build order.
pub proof fn lemma_topo_only(g: GraphView, goals: Seq<Seq<char>>)
    requires
        g.entries.dom().finite(),
    ensures
        forall|i: int|
            0 <= i < topo(g, goals).order.len() ==> goals.contains(
                #[trigger] topo(g, goals).order[i],
            ) || exists|n: int|
                i < n < topo(g, goals).order.len() && depends(
                    g.at(#[trigger] topo(g, goals).order[n]),
                    topo(g, goals).order[i],
                ),
{
    let w = Walk { order: seq![], dropped: seq![] };
    lemma_only_all(g, goals, 0, seq![], w);
    let v = topo(g, goals);
    assert forall|i: int| 0 <= i < v.order.len() implies goals.contains(#[trigger] v.order[i])
        || exists|n: int|
        i < n < v.order.len() && depends(g.at(#[trigger] v.order[n]), v.order[i]) by {
        assert(called_for(g, goals, 0, v, i));
        if !(exists|n: int|
            i < n < v.order.len() && depends(g.at(#[trigger] v.order[n]), v.order[i])) {
            let j = choose|j: int| 0 <= j < goals.len() && goals[j] == v.order[i];
            assert(goals[j] == v.order[i]);
        }
    }
}

/// Whether a place in the order is that of one of some names, from position `j` on, or
/// of something that a later target depends on.
spec fn called_for(g: GraphView, names: Seq<Seq<char>>, j: int, w: Walk, i: int) -> bool {
    (exists|m: int| j <= m < names.len() && #[trigger] names[m] == w.order[i]) || exists|n: int|
        i < n < w.order.len() && depends(g.at(#[trigger] w.order[n]), w.order[i])
}

proof fn lemma_only(
    g: GraphView,
    target: Seq<char>,
    stack: Seq<Seq<char>>,
    w: Walk,
)
    requires
        g.entries.dom().finite(),
    ensures
        ({
            let v = visit(g.entries, target, stack, w);
            &&& w.order.len() <= v.order.len()
            &&& v.order.take(w.order.len() as int) == w.order
            &&& forall|i: int|
                w.order.len() <= i < v.order.len() ==> #[trigger] v.order[i] == target || exists|
                    n: int,
                |
                    i < n < v.order.len() && depends(g.at(#[trigger] v.order[n]), v.order[i])
        }),
    decreases g.entries.dom().difference(stack.to_set()).len(), 1int, 0int,
{
    let v = visit(g.entries, target, stack, w);
    if w.order.contains(target) || stack.contains(target) {
        assert(v.order.take(w.order.len() as int) =~= w.order);
    } else if g.has(target) {
        names::lemma_stack_grows(g.entries.dom(), stack, target);
        let list = prereq_names(all_prereqs(g.entries[target]));
        let inner = stack.push(target);
        lemma_only_all(g, list, 0, inner, w);
        let u = visit_all(g.entries, list, 0, inner, w);
        assert(v.order == u.order.push(target));
        assert(v.order.take(w.order.len() as int) =~= u.order.take(w.order.len() as int));
        let last = u.order.len() as int;
        assert(v.order[last] == target);
        assert forall|i: int| w.order.len() <= i < v.order.len() implies #[trigger] v.order[i]
            == target || exists|n: int|
            i < n < v.order.len() && depends(g.at(#[trigger] v.order[n]), v.order[i]) by {
            if i < last {
                assert(v.order[i] == u.order[i]);
                assert(called_for(g, list, 0, u, i));
                if exists|m: int| 0 <= m < list.len() && #[trigger] list[m] == u.order[i] {
                    let m = choose|m: int| 0 <= m < list.len() && #[trigger] list[m] == u.order[i];
                    let all = all_prereqs(g.entries[target]);
                    assert(all[m].name == u.order[i]);
                    lemma_depends(g.entries[target], u.order[i]);
                    assert(depends(g.at(v.order[last]), v.order[i]));
                } else {
                    let n = choose|n: int|
                        i < n < u.order.len() && depends(g.at(#[trigger] u.order[n]), u.order[i]);
                    assert(v.order[n] == u.order[n]);
                }
            }
        }
    } else {
        assert(v.order == w.order.push(target));
        assert(v.order.take(w.order.len() as int) =~= w.order);
    }
}

proof fn lemma_only_all(
    g: GraphView,
    list: Seq<Seq<char>>,
    j: int,
    stack: Seq<Seq<char>>,
    w: Walk,
)
    requires
        g.entries.dom().finite(),
        0 <= j <= list.len(),
    ensures
        ({
            let v = visit_all(g.entries, list, j, stack, w);
            &&& w.order.len() <= v.order.len()
            &&& v.order.take(w.order.len() as int) == w.order
            &&& forall|i: int|
                w.order.len() <= i < v.order.len() ==> #[trigger] called_for(g, list, j, v, i)
        }),
    decreases g.entries.dom().difference(stack.to_set()).len(), 2int, list.len() - j,
{
    let v = visit_all(g.entries, list, j, stack, w);
    if j < list.len() {
        lemma_only(g, list[j], stack, w);
        let u = visit(g.entries, list[j], stack, w);
        lemma_only_all(g, list, j + 1, stack, u);
        assert(v.order.take(w.order.len() as int) =~= v.order.take(u.order.len() as int).take(
            w.order.len() as int,
        ));
        assert forall|i: int| w.order.len() <= i < v.order.len() implies #[trigger] called_for(
            g,
            list,
            j,
            v,
            i,
        ) by {
            if i < u.order.len() {
                assert(v.order.take(u.order.len() as int)[i] == v.order[i]);
                assert(u.order[i] == v.order[i]);
                if u.order[i] != list[j] {
                    let n = choose|n: int|
                        i < n < u.order.len() && depends(g.at(#[trigger] u.order[n]), u.order[i]);
                    assert(v.order.take(u.order.len() as int)[n] == v.order[n]);
                    assert(depends(g.at(v.order[n]), v.order[i]));
                }
            } else {
                assert(called_for(g, list, j + 1, v, i));
            }
        }
    } else {
        assert(v.order.take(w.order.len() as int) =~= w.order);
    }
}

} // verus!
