//! Rule headers, and what a finished rule adds to the graph.

use vstd::prelude::*;
use crate::error;
use crate::error::{Loc, LocView};
use crate::search::has_char;
use crate::text;
use crate::text::{
    append_str,
    chars_of,
    dup_all,
    from,
    has_string,
    is_text,
    split_words,
    string_of,
    strings_of,
    trimmed,
    trimmed_start,
    upto,
    Dup,
};
use crate::world;
use crate::world::{AnswerView, Query, QueryView, Stop, StopView, Told, Transcript};
use super::assign;
use super::expand;
use super::expand::expand_chars;
use super::graph;
use super::graph::{merge_prereqs, BuildGraph, EntryView, GraphView};
use super::lines;
use super::lines::{
    contains_assign,
    find_pattern_colon,
    find_rule_colon,
    parse_prereqs,
    split_assignment,
};
use super::rule;
use super::rule::{
    apply_chars,
    stem_of,
    PatternRule,
    PatternRuleView,
    Prereq,
    PrereqView,
    RecipeLine,
    RecipeLineView,
    Rule,
    RuleView,
};
use super::var::{Flavor, Origin, VarTable, VarTableView};
use super::{Makefile, MakefileView};

verus! {

/// The most recently opened rule (which may still receive recipe lines).
#[derive(Debug)]
pub struct RuleState {
    pub targets: Vec<String>,
    pub prereqs: Vec<Prereq>,
    pub double_colon: bool,
    pub loc: Loc,
    pub recipe: Vec<RecipeLine>,
    /// Static pattern rule pattern (for `targets: pattern: prereqs`).
    pub static_pattern: Option<String>,
    /// Target-specific variable: `(target, (name, raw, flavor, origin))`.
    pub target_var: Option<(String, (String, String, Flavor, Origin))>,
}

pub struct RuleStateView {
    pub targets: Seq<Seq<char>>,
    pub prereqs: Seq<PrereqView>,
    pub double_colon: bool,
    pub loc: LocView,
    pub recipe: Seq<RecipeLineView>,
    pub static_pattern: Option<Seq<char>>,
    pub target_var: Option<(Seq<char>, (Seq<char>, Seq<char>, Flavor, Origin))>,
}

impl View for RuleState {
    type V = RuleStateView;

    open spec fn view(&self) -> RuleStateView {
        RuleStateView {
            targets: text::views(self.targets@),
            prereqs: text::views(self.prereqs@),
            double_colon: self.double_colon,
            loc: self.loc@,
            recipe: text::views(self.recipe@),
            static_pattern: text::view_of(self.static_pattern),
            target_var: text::view_of(self.target_var),
        }
    }
}

// ── Reading a header ────────────────────────────────────────────────────────

/// The target pattern of a static pattern rule, if there is one, and the
/// prerequisites, in what stands behind the `:` of a rule. Behind a single target
/// an assignment is no pattern, whatever its value holds.
pub open spec fn static_parts(targets: Seq<Seq<char>>, rest: Seq<char>) -> (
    Option<Seq<char>>,
    Seq<char>,
) {
    if targets.len() == 1 && lines::assigns(text::trim(rest), 0, 0) {
        (None, rest)
    } else {
        match lines::pattern_colon(rest, 0, 0) {
            Some(i) => (Some(text::trim(rest.take(i))), rest.skip(i + 1)),
            None => (None, rest),
        }
    }
}

/// The target-specific variable that a header with one target sets, if it sets
/// one.
pub open spec fn target_assignment(
    targets: Seq<Seq<char>>,
    pattern: Option<Seq<char>>,
    raw: Seq<char>,
) -> Option<(Seq<char>, (Seq<char>, Seq<char>, Flavor, Origin))> {
    let s = text::trim(raw);
    if targets.len() == 1 && pattern is None && lines::assigns(s, 0, 0) {
        match lines::assignment(s) {
            Some(a) => Some(
                (
                    targets[0],
                    (text::trim(a.name), text::trim_start(a.value), a.flavor, Origin::File),
                ),
            ),
            None => None,
        }
    } else {
        None
    }
}

/// The rule that a line opens, if it opens one.
pub open spec fn header(
    line: Seq<char>,
    vars: VarTableView,
    loc: LocView,
    log: Seq<AnswerView>,
    k: nat,
) -> Told<Option<RuleStateView>> {
    match lines::rule_colon(line, 0, 0) {
        None => Ok((None, k)),
        Some(colon) => {
            let behind = line.skip(colon + 1);
            let double_colon = behind.len() > 0 && behind[0] == ':';
            let rest = if double_colon {
                behind.skip(1)
            } else {
                behind
            };
            match assign::in_makefile(text::trim(line.take(colon)), vars, loc, log, k) {
                Err(s) => Err(s),
                Ok(p) => {
                    let targets = text::words(p.0);
                    if targets.len() == 0 {
                        Ok((None, p.1))
                    } else {
                        let parts = static_parts(targets, rest);
                        match assign::in_makefile(text::trim(parts.1), vars, loc, log, p.1) {
                            Err(s) => Err(s),
                            Ok(q) => Ok(
                                (
                                    Some(
                                        RuleStateView {
                                            targets,
                                            prereqs: lines::prereqs_in(q.0),
                                            double_colon,
                                            loc,
                                            recipe: seq![],
                                            static_pattern: parts.0,
                                            target_var: target_assignment(
                                                targets,
                                                parts.0,
                                                parts.1,
                                            ),
                                        },
                                    ),
                                    q.1,
                                ),
                            ),
                        }
                    }
                },
            }
        },
    }
}

/// A rule that was opened, if one was.
pub struct Opened(pub Option<RuleState>);

impl View for Opened {
    type V = Option<RuleStateView>;

    open spec fn view(&self) -> Option<RuleStateView> {
        text::view_of(self.0)
    }
}

fn read_target_var(targets: &Vec<String>, pattern: &Option<String>, raw: &[char]) -> (r: Option<
    (String, (String, String, Flavor, Origin)),
>)
    ensures
        text::view_of(r) == target_assignment(
            text::views(targets@),
            text::view_of(*pattern),
            raw@,
        ),
{
    let s = trimmed(raw);
    if targets.len() == 1 && pattern.is_none() && contains_assign(s) {
        match split_assignment(s) {
            Some(a) => Some(
                (
                    targets[0].dup(),
                    (
                        string_of(trimmed(a.name)),
                        string_of(trimmed_start(a.value)),
                        a.flavor,
                        Origin::File,
                    ),
                ),
            ),
            None => None,
        }
    } else {
        None
    }
}

/// Reads a rule header.
pub fn try_parse_rule(line: &[char], vars: &VarTable, loc: &Loc, t: &mut Transcript) -> (r: Result<
    Opened,
    Stop,
>)
    ensures
        world::tells(
            r,
            *old(t),
            *final(t),
            header(line@, vars@, loc@, old(t).log(), old(t).at()),
        ),
{
    broadcast use text::group_views;

    let colon = match find_rule_colon(line) {
        None => {
            return Ok(Opened(None));
        },
        Some(p) => p,
    };
    let behind = from(line, colon + 1);
    let double_colon = behind.len() > 0 && behind[0] == ':';
    let rest = if double_colon {
        from(behind, 1)
    } else {
        behind
    };
    let names = expand_chars(trimmed(upto(line, colon)), vars, None, loc, t)?;
    let targets = strings_of(split_words(names.as_slice()).as_slice());
    assert(targets@.len() == text::views(targets@).len());
    if targets.len() == 0 {
        return Ok(Opened(None));
    }
    // Check for static pattern rule: `targets: pattern: prereqs`
    let static_pattern;
    let raw;
    let colon = if targets.len() == 1 && contains_assign(trimmed(rest)) {
        None
    } else {
        find_pattern_colon(rest)
    };
    match colon {
        Some(i) => {
            static_pattern = Some(string_of(trimmed(upto(rest, i))));
            raw = from(rest, i + 1);
        },
        None => {
            static_pattern = None;
            raw = rest;
        },
    }
    let list = expand_chars(trimmed(raw), vars, None, loc, t)?;
    let prereqs = parse_prereqs(list.as_slice());
    // Check for target-specific variable: `target: VAR = value`
    let target_var = read_target_var(&targets, &static_pattern, raw);
    Ok(
        Opened(
            Some(
                RuleState {
                    targets,
                    prereqs,
                    double_colon,
                    loc: loc.dup(),
                    recipe: Vec::new(),
                    static_pattern,
                    target_var,
                },
            ),
        ),
    )
}

// ── Committing a rule ───────────────────────────────────────────────────────

/// The prerequisites that a rule gives one of its targets: in a static pattern
/// rule that the target matches, with the stem in the place of `%`.
pub open spec fn prereqs_for(rs: RuleStateView, target: Seq<char>) -> Seq<PrereqView> {
    match rs.static_pattern {
        None => rs.prereqs,
        Some(pat) => match rule::stem(target, pat) {
            None => rs.prereqs,
            Some(s) => rs.prereqs.map_values(
                |p: PrereqView|
                    PrereqView { name: rule::applied(p.name, s), order_only: p.order_only },
            ),
        },
    }
}

fn concrete_prereqs(rs: &RuleState, target: &str) -> (r: Vec<Prereq>)
    ensures
        text::views(r@) == prereqs_for(rs@, target@),
{
    if let Some(pat) = &rs.static_pattern {
        let name = chars_of(target);
        let pattern = chars_of(pat.as_str());
        if let Some(s) = stem_of(name.as_slice(), pattern.as_slice()) {
            let ghost want = prereqs_for(rs@, target@);
            let mut out: Vec<Prereq> = Vec::new();
            let mut i: usize = 0;
            while i < rs.prereqs.len()
                invariant
                    i <= rs.prereqs@.len(),
                    out@.len() == i,
                    want == rs@.prereqs.map_values(
                        |p: PrereqView|
                            PrereqView {
                                name: rule::applied(p.name, s@),
                                order_only: p.order_only,
                            },
                    ),
                    forall|n: int| 0 <= n < i ==> (#[trigger] out@[n])@ == want[n],
                decreases rs.prereqs.len() - i,
            {
                let p = chars_of(rs.prereqs[i].name.as_str());
                assert(rs@.prereqs[i as int] == rs.prereqs@[i as int]@);
                out.push(
                    Prereq {
                        name: string_of(apply_chars(p.as_slice(), s.as_slice()).as_slice()),
                        order_only: rs.prereqs[i].order_only,
                    },
                );
                i = i + 1;
            }
            proof {
                assert(text::views(out@) =~= want);
            }
            return out;
        }
    }
    dup_all(rs.prereqs.as_slice())
}

/// The line that says that a recipe takes the place of another.
pub open spec fn overriding(loc: LocView, target: Seq<char>) -> Seq<char> {
    error::loc_text(loc) + ": warning: overriding recipe for target '"@ + target + "'"@
}

/// The line that says where the other recipe was.
pub open spec fn ignoring(loc: LocView, target: Seq<char>) -> Seq<char> {
    error::loc_text(loc) + ": warning: ignoring old recipe for target '"@ + target + "'"@
}

/// The two warnings that are due where a target gets a second recipe.
pub open spec fn recipe_warnings(
    e: EntryView,
    rs: RuleStateView,
    target: Seq<char>,
    log: Seq<AnswerView>,
    k: nat,
) -> Told<()> {
    if e.recipe.len() > 0 && rs.recipe.len() > 0 {
        match world::asked(log, k, QueryView::Warn(overriding(rs.loc, target))) {
            Err(s) => Err(s),
            Ok(a) => {
                let loc = match e.recipe_loc {
                    Some(l) => l,
                    None => rs.loc,
                };
                match world::asked(log, a.1, QueryView::Warn(ignoring(loc, target))) {
                    Err(s) => Err(s),
                    Ok(b) => Ok(((), b.1)),
                }
            },
        }
    } else {
        Ok(((), k))
    }
}

/// A target after a single-colon rule was added to it.
pub open spec fn with_single(e: EntryView, rs: RuleStateView, target: Seq<char>) -> EntryView {
    let more = prereqs_for(rs, target);
    EntryView {
        prereqs: graph::merged_prereqs(e.prereqs, more, more.len() as int),
        recipe: if rs.recipe.len() > 0 {
            rs.recipe
        } else {
            e.recipe
        },
        recipe_loc: if rs.recipe.len() > 0 {
            Some(rs.loc)
        } else {
            e.recipe_loc
        },
        loc: match e.loc {
            Some(l) => Some(l),
            None => Some(rs.loc),
        },
        ..e
    }
}

/// A target after a double-colon rule was added to it.
pub open spec fn with_double(e: EntryView, rs: RuleStateView, target: Seq<char>) -> EntryView {
    EntryView {
        dc_rules: e.dc_rules.push(
            RuleView {
                targets: seq![target],
                prereqs: prereqs_for(rs, target),
                recipe: rs.recipe,
                double_colon: true,
                loc: rs.loc,
            },
        ),
        ..e
    }
}

/// The first target that may be the default goal.
pub open spec fn first_goal(first: Option<Seq<char>>, target: Seq<char>) -> Option<Seq<char>> {
    match first {
        Some(f) => Some(f),
        None => if target.len() > 0 && target[0] == '.' {
            None
        } else {
            Some(target)
        },
    }
}

/// The makefile after a rule was added to one of its targets.
pub open spec fn committed_one(
    mf: MakefileView,
    rs: RuleStateView,
    target: Seq<char>,
    log: Seq<AnswerView>,
    k: nat,
) -> Told<MakefileView> {
    let e = mf.graph.at(target);
    if rs.double_colon {
        Ok(
            (
                MakefileView {
                    graph: mf.graph.put(target, with_double(e, rs, target)),
                    first_target: first_goal(mf.first_target, target),
                    ..mf
                },
                k,
            ),
        )
    } else {
        match recipe_warnings(e, rs, target, log, k) {
            Err(s) => Err(s),
            Ok(p) => Ok(
                (
                    MakefileView {
                        graph: mf.graph.put(target, with_single(e, rs, target)),
                        first_target: first_goal(mf.first_target, target),
                        ..mf
                    },
                    p.1,
                ),
            ),
        }
    }
}

/// The makefile after a rule was added to its targets from position `i` on.
pub open spec fn committed_from(
    mf: MakefileView,
    rs: RuleStateView,
    i: int,
    log: Seq<AnswerView>,
    k: nat,
) -> Told<MakefileView>
    decreases rs.targets.len() - i,
{
    if i < 0 || i >= rs.targets.len() {
        Ok((mf, k))
    } else {
        match committed_one(mf, rs, rs.targets[i], log, k) {
            Err(s) => Err(s),
            Ok(p) => committed_from(p.0, rs, i + 1, log, p.1),
        }
    }
}

/// The makefile after a rule, or a target-specific variable, was added.
pub open spec fn committed(
    mf: MakefileView,
    rs: RuleStateView,
    log: Seq<AnswerView>,
    k: nat,
) -> Told<MakefileView> {
    match rs.target_var {
        Some(v) => {
            let e = mf.graph.at(v.0);
            Ok(
                (
                    MakefileView {
                        graph: mf.graph.put(
                            v.0,
                            EntryView { target_vars: e.target_vars.push(v.1), ..e },
                        ),
                        ..mf
                    },
                    k,
                ),
            )
        },
        None => committed_from(mf, rs, 0, log, k),
    }
}

fn warn_recipe(
    graph: &BuildGraph,
    rs: &RuleState,
    target: &str,
    t: &mut Transcript,
) -> (r: Result<(), Stop>)
    ensures
        world::moves(
            r,
            *old(t),
            *final(t),
            (),
            recipe_warnings(
                graph@.at(target@),
                rs@,
                target@,
                old(t).log(),
                old(t).at(),
            ),
        ),
{
    if let Some(e) = graph.entries.get(target) {
        if e.recipe.len() > 0 && rs.recipe.len() > 0 {
            let mut line = rs.loc.chars();
            append_str(&mut line, ": warning: overriding recipe for target '");
            append_str(&mut line, target);
            append_str(&mut line, "'");
            let _ = t.ask(Query::Warn(string_of(line.as_slice())))?;
            let mut line = match &e.recipe_loc {
                Some(l) => l.chars(),
                None => rs.loc.chars(),
            };
            append_str(&mut line, ": warning: ignoring old recipe for target '");
            append_str(&mut line, target);
            append_str(&mut line, "'");
            let _ = t.ask(Query::Warn(string_of(line.as_slice())))?;
        }
    }
    Ok(())
}

fn add_double(graph: &mut BuildGraph, rs: &RuleState, target: &str)
    ensures
        final(graph)@ == old(graph)@.put(
            target@,
            with_double(old(graph)@.at(target@), rs@, target@),
        ),
{
    broadcast use text::group_views;

    let mut targets: Vec<String> = Vec::new();
    targets.push(text::owned(target));
    let made = Rule {
        targets,
        prereqs: concrete_prereqs(rs, target),
        recipe: dup_all(rs.recipe.as_slice()),
        double_colon: true,
        loc: rs.loc.dup(),
    };
    assert(made@.targets =~= seq![target@]);
    let entry = graph.entry(target);
    entry.dc_rules.push(made);
}

fn add_single(graph: &mut BuildGraph, rs: &RuleState, target: &str)
    ensures
        final(graph)@ == old(graph)@.put(
            target@,
            with_single(old(graph)@.at(target@), rs@, target@),
        ),
{
    let more = concrete_prereqs(rs, target);
    let entry = graph.entry(target);
    // Merge prerequisites (single-colon: they accumulate)
    merge_prereqs(&mut entry.prereqs, more.as_slice());
    if rs.recipe.len() > 0 {
        entry.recipe = dup_all(rs.recipe.as_slice());
        entry.recipe_loc = Some(rs.loc.dup());
    }
    if entry.loc.is_none() {
        entry.loc = Some(rs.loc.dup());
    }
}

fn commit_one(rs: &RuleState, target: &str, mf: &mut Makefile, t: &mut Transcript) -> (r: Result<
    (),
    Stop,
>)
    ensures
        world::moves(
            r,
            *old(t),
            *final(t),
            final(mf)@,
            committed_one(old(mf)@, rs@, target@, old(t).log(), old(t).at()),
        ),
{
    if rs.double_colon {
        add_double(&mut mf.graph, rs, target);
    } else {
        warn_recipe(&mf.graph, rs, target, t)?;
        add_single(&mut mf.graph, rs, target);
    }
    // Track first target for default goal
    if mf.first_target.is_none() {
        let name = chars_of(target);
        if !(name.len() > 0 && name[0] == '.') {
            mf.first_target = Some(text::owned(target));
        }
    }
    Ok(())
}

/// Adds a finished rule to the makefile.
pub(crate) fn commit_rule(rs: &RuleState, mf: &mut Makefile, t: &mut Transcript) -> (r: Result<(), Stop>)
    ensures
        world::moves(
            r,
            *old(t),
            *final(t),
            final(mf)@,
            committed(old(mf)@, rs@, old(t).log(), old(t).at()),
        ),
{
    broadcast use text::group_views;

    // Target-specific variable
    if let Some(v) = &rs.target_var {
        let value = v.1.dup();
        let entry = mf.graph.entry(v.0.as_str());
        entry.target_vars.push(value);
        return Ok(());
    }
    let ghost want = committed(mf@, rs@, t.log(), t.at());
    let mut i: usize = 0;
    while i < rs.targets.len()
        invariant
            i <= rs.targets@.len(),
            t.log() == old(t).log(),
            want == committed(old(mf)@, rs@, old(t).log(), old(t).at()),
            want == committed_from(mf@, rs@, i as int, t.log(), t.at()),
        decreases rs.targets.len() - i,
    {
        assert(rs@.targets[i as int] == rs.targets@[i as int]@);
        commit_one(rs, rs.targets[i].as_str(), mf, t)?;
        i = i + 1;
    }
    Ok(())
}

// ── Special targets ─────────────────────────────────────────────────────────

/// What a special target says of its prerequisites.
#[derive(Debug, Clone, Copy, PartialEq, Eq, Structural)]
pub enum Mark {
    Phony,
    Precious,
    Intermediate,
    Secondary,
}

/// A target with a mark set.
pub open spec fn marked(e: EntryView, m: Mark) -> EntryView {
    match m {
        Mark::Phony => EntryView { phony: true, ..e },
        Mark::Precious => EntryView { precious: true, ..e },
        Mark::Intermediate => EntryView { intermediate: true, ..e },
        Mark::Secondary => EntryView { secondary: true, ..e },
    }
}

/// The graph with a mark set on the first `n` prerequisites.
pub open spec fn marked_all(g: GraphView, prereqs: Seq<PrereqView>, n: int, m: Mark) -> GraphView
    decreases n,
{
    if n <= 0 {
        g
    } else {
        let h = marked_all(g, prereqs, n - 1, m);
        let name = prereqs[n - 1].name;
        h.put(name, marked(h.at(name), m))
    }
}

fn set_mark(graph: &mut BuildGraph, name: &str, m: Mark)
    ensures
        final(graph)@ == old(graph)@.put(name@, marked(old(graph)@.at(name@), m)),
{
    let entry = graph.entry(name);
    match m {
        Mark::Phony => {
            entry.phony = true;
        },
        Mark::Precious => {
            entry.precious = true;
        },
        Mark::Intermediate => {
            entry.intermediate = true;
        },
        Mark::Secondary => {
            entry.secondary = true;
        },
    }
}

fn mark_all(graph: &mut BuildGraph, prereqs: &[Prereq], m: Mark)
    ensures
        final(graph)@ == marked_all(
            old(graph)@,
            text::views(prereqs@),
            prereqs@.len() as int,
            m,
        ),
{
    let mut i: usize = 0;
    while i < prereqs.len()
        invariant
            i <= prereqs@.len(),
            graph@ == marked_all(old(graph)@, text::views(prereqs@), i as int, m),
        decreases prereqs.len() - i,
    {
        assert(text::views(prereqs@)[i as int] == prereqs@[i as int]@);
        set_mark(graph, prereqs[i].name.as_str(), m);
        i = i + 1;
    }
}

/// `have` with the names of the first `n` prerequisites added, each once.
pub open spec fn more_suffixes(have: Seq<Seq<char>>, prereqs: Seq<PrereqView>, n: int) -> Seq<
    Seq<char>,
>
    decreases n,
{
    if n <= 0 {
        have
    } else {
        let before = more_suffixes(have, prereqs, n - 1);
        if before.contains(prereqs[n - 1].name) {
            before
        } else {
            before.push(prereqs[n - 1].name)
        }
    }
}

fn add_suffixes(suffixes: &mut Vec<String>, prereqs: &[Prereq])
    ensures
        text::views(final(suffixes)@) == more_suffixes(
            text::views(old(suffixes)@),
            text::views(prereqs@),
            prereqs@.len() as int,
        ),
{
    broadcast use text::group_views;

    let mut i: usize = 0;
    while i < prereqs.len()
        invariant
            i <= prereqs@.len(),
            text::views(suffixes@) == more_suffixes(
                text::views(old(suffixes)@),
                text::views(prereqs@),
                i as int,
            ),
        decreases prereqs.len() - i,
    {
        assert(text::views(prereqs@)[i as int] == prereqs@[i as int]@);
        if !has_string(suffixes.as_slice(), prereqs[i].name.as_str()) {
            suffixes.push(prereqs[i].name.dup());
        }
        i = i + 1;
    }
}

/// What a special target is.
#[derive(Debug, Clone, Copy, PartialEq, Eq, Structural)]
pub enum Special {
    Mark(Mark),
    Suffixes,
    Default,
    SecondExpansion,
    ExportAll,
    NotParallel,
    Ignore,
    Silent,
}

/// The special target of a name, if it is one.
pub open spec fn special_named(name: Seq<char>) -> Option<Special> {
    if name == ".PHONY"@ {
        Some(Special::Mark(Mark::Phony))
    } else if name == ".PRECIOUS"@ {
        Some(Special::Mark(Mark::Precious))
    } else if name == ".INTERMEDIATE"@ {
        Some(Special::Mark(Mark::Intermediate))
    } else if name == ".SECONDARY"@ {
        Some(Special::Mark(Mark::Secondary))
    } else if name == ".SUFFIXES"@ {
        Some(Special::Suffixes)
    } else if name == ".DEFAULT"@ {
        Some(Special::Default)
    } else if name == ".SECONDEXPANSION"@ {
        Some(Special::SecondExpansion)
    } else if name == ".EXPORT_ALL_VARIABLES"@ {
        Some(Special::ExportAll)
    } else if name == ".NOTPARALLEL"@ {
        Some(Special::NotParallel)
    } else if name == ".IGNORE"@ {
        Some(Special::Ignore)
    } else if name == ".SILENT"@ {
        Some(Special::Silent)
    } else {
        None
    }
}

fn special_of(name: &[char]) -> (r: Option<Special>)
    ensures
        r == special_named(name@),
{
    if is_text(name, ".PHONY") {
        Some(Special::Mark(Mark::Phony))
    } else if is_text(name, ".PRECIOUS") {
        Some(Special::Mark(Mark::Precious))
    } else if is_text(name, ".INTERMEDIATE") {
        Some(Special::Mark(Mark::Intermediate))
    } else if is_text(name, ".SECONDARY") {
        Some(Special::Mark(Mark::Secondary))
    } else if is_text(name, ".SUFFIXES") {
        Some(Special::Suffixes)
    } else if is_text(name, ".DEFAULT") {
        Some(Special::Default)
    } else if is_text(name, ".SECONDEXPANSION") {
        Some(Special::SecondExpansion)
    } else if is_text(name, ".EXPORT_ALL_VARIABLES") {
        Some(Special::ExportAll)
    } else if is_text(name, ".NOTPARALLEL") {
        Some(Special::NotParallel)
    } else if is_text(name, ".IGNORE") {
        Some(Special::Ignore)
    } else if is_text(name, ".SILENT") {
        Some(Special::Silent)
    } else {
        None
    }
}

/// The makefile after a special target.
pub open spec fn with_special(mf: MakefileView, s: Special, rs: RuleStateView) -> MakefileView {
    let n = rs.prereqs.len() as int;
    match s {
        Special::Mark(m) => MakefileView {
            graph: marked_all(mf.graph, rs.prereqs, n, m),
            ..mf
        },
        Special::Suffixes => MakefileView {
            graph: GraphView {
                suffixes: if n == 0 {
                    seq![]
                } else {
                    more_suffixes(mf.graph.suffixes, rs.prereqs, n)
                },
                ..mf.graph
            },
            ..mf
        },
        Special::Default => if rs.recipe.len() > 0 {
            MakefileView {
                graph: GraphView { default_recipe: Some(rs.recipe), ..mf.graph },
                ..mf
            }
        } else {
            mf
        },
        Special::SecondExpansion => MakefileView { second_expansion: true, ..mf },
        Special::ExportAll => MakefileView {
            vars: VarTableView { export_all: true, ..mf.vars },
            ..mf
        },
        Special::NotParallel => MakefileView { not_parallel: true, ..mf },
        Special::Ignore => MakefileView { global_ignore: mf.global_ignore || n == 0, ..mf },
        Special::Silent => MakefileView { global_silent: mf.global_silent || n == 0, ..mf },
    }
}

/// Whether one of the first `n` targets is special.
pub open spec fn some_special(targets: Seq<Seq<char>>, n: int) -> bool {
    exists|i: int| 0 <= i < n && special_named(#[trigger] targets[i]) is Some
}

/// The makefile after those of the first `n` targets that are special.
pub open spec fn with_specials(mf: MakefileView, rs: RuleStateView, n: int) -> MakefileView
    decreases n,
{
    if n <= 0 {
        mf
    } else {
        let before = with_specials(mf, rs, n - 1);
        match special_named(rs.targets[n - 1]) {
            Some(s) => with_special(before, s, rs),
            None => before,
        }
    }
}

/// The first target, from position `i` on, that is a pattern.
pub open spec fn pattern_target(targets: Seq<Seq<char>>, i: int) -> Option<Seq<char>>
    decreases targets.len() - i,
{
    if i < 0 || i >= targets.len() {
        None
    } else if targets[i].contains('%') {
        Some(targets[i])
    } else {
        pattern_target(targets, i + 1)
    }
}

/// The names of prerequisites.
pub open spec fn names_of(prereqs: Seq<PrereqView>) -> Seq<Seq<char>> {
    prereqs.map_values(|p: PrereqView| p.name)
}

/// Whether a rule says something of its own, because a target is special or a
/// pattern, and the makefile with what it says.
pub open spec fn after_special(mf: MakefileView, rs: RuleStateView) -> (bool, MakefileView) {
    let n = rs.targets.len() as int;
    let made = with_specials(mf, rs, n);
    if some_special(rs.targets, n) {
        (true, made)
    } else {
        match pattern_target(rs.targets, 0) {
            None => (false, made),
            Some(target) => {
                let pr = PatternRuleView {
                    target,
                    prereqs: names_of(rs.prereqs),
                    recipe: rs.recipe,
                    is_builtin: false,
                    loc: rs.loc,
                };
                (
                    true,
                    MakefileView {
                        graph: GraphView {
                            pattern_rules: made.graph.pattern_rules.push(pr),
                            ..made.graph
                        },
                        ..made
                    },
                )
            },
        }
    }
}

fn apply_special(mf: &mut Makefile, s: Special, rs: &RuleState)
    ensures
        final(mf)@ == with_special(old(mf)@, s, rs@),
{
    match s {
        Special::Mark(m) => {
            mark_all(&mut mf.graph, rs.prereqs.as_slice(), m);
        },
        Special::Suffixes => {
            set_suffixes(&mut mf.graph, rs.prereqs.as_slice());
        },
        Special::Default => {
            if rs.recipe.len() > 0 {
                set_default(&mut mf.graph, rs.recipe.as_slice());
            }
        },
        Special::SecondExpansion => {
            mf.second_expansion = true;
        },
        Special::ExportAll => {
            mf.vars.export_everything();
        },
        Special::NotParallel => {
            mf.not_parallel = true;
        },
        Special::Ignore => {
            mf.global_ignore = mf.global_ignore || rs.prereqs.len() == 0;
        },
        Special::Silent => {
            mf.global_silent = mf.global_silent || rs.prereqs.len() == 0;
        },
    }
}

fn set_suffixes(graph: &mut BuildGraph, prereqs: &[Prereq])
    ensures
        final(graph)@ == (GraphView {
            suffixes: if prereqs@.len() == 0 {
                seq![]
            } else {
                more_suffixes(
                    old(graph)@.suffixes,
                    text::views(prereqs@),
                    prereqs@.len() as int,
                )
            },
            ..old(graph)@
        }),
{
    broadcast use text::group_views;

    if prereqs.len() == 0 {
        graph.suffixes = Vec::new();
    } else {
        add_suffixes(&mut graph.suffixes, prereqs);
    }
}

fn set_default(graph: &mut BuildGraph, recipe: &[RecipeLine])
    ensures
        final(graph)@ == (GraphView {
            default_recipe: Some(text::views(recipe@)),
            ..old(graph)@
        }),
{
    graph.default_recipe = Some(dup_all(recipe));
}

fn add_pattern_rule(graph: &mut BuildGraph, target: &str, rs: &RuleState)
    ensures
        final(graph)@ == (GraphView {
            pattern_rules: old(graph)@.pattern_rules.push(
                PatternRuleView {
                    target: target@,
                    prereqs: names_of(rs@.prereqs),
                    recipe: rs@.recipe,
                    is_builtin: false,
                    loc: rs@.loc,
                },
            ),
            ..old(graph)@
        }),
{
    broadcast use text::group_views;

    let mut prereqs: Vec<String> = Vec::new();
    let mut i: usize = 0;
    while i < rs.prereqs.len()
        invariant
            i <= rs.prereqs@.len(),
            prereqs@.len() == i,
            forall|n: int| 0 <= n < i ==> (#[trigger] prereqs@[n])@ == rs.prereqs@[n].name@,
        decreases rs.prereqs.len() - i,
    {
        prereqs.push(rs.prereqs[i].name.dup());
        i = i + 1;
    }
    assert(text::views(prereqs@) =~= names_of(rs@.prereqs));
    graph.pattern_rules.push(
        PatternRule {
            target: text::owned(target),
            prereqs,
            recipe: dup_all(rs.recipe.as_slice()),
            is_builtin: false,
            loc: rs.loc.dup(),
        },
    );
}

/// Does what special targets and patterns say. Tells whether the rule is used up
/// by that.
pub(crate) fn process_special_targets(rs: &RuleState, mf: &mut Makefile) -> (r: bool)
    ensures
        (r, final(mf)@) == after_special(old(mf)@, rs@),
{
    let mut is_special = false;
    let mut i: usize = 0;
    while i < rs.targets.len()
        invariant
            i <= rs.targets@.len(),
            is_special == some_special(rs@.targets, i as int),
            mf@ == with_specials(old(mf)@, rs@, i as int),
        decreases rs.targets.len() - i,
    {
        let name = chars_of(rs.targets[i].as_str());
        assert(rs@.targets[i as int] == name@);
        if let Some(s) = special_of(name.as_slice()) {
            apply_special(mf, s, rs);
            is_special = true;
        }
        i = i + 1;
    }
    if is_special {
        return true;
    }
    let mut j: usize = 0;
    while j < rs.targets.len()
        invariant
            j <= rs.targets@.len(),
            !some_special(rs@.targets, rs@.targets.len() as int),
            mf@ == with_specials(old(mf)@, rs@, rs@.targets.len() as int),
            pattern_target(rs@.targets, 0) == pattern_target(rs@.targets, j as int),
        decreases rs.targets.len() - j,
    {
        let name = chars_of(rs.targets[j].as_str());
        assert(rs@.targets[j as int] == name@);
        if has_char(name.as_slice(), '%') {
            add_pattern_rule(&mut mf.graph, rs.targets[j].as_str(), rs);
            return true;
        }
        j = j + 1;
    }
    false
}

// ── What holds of rules ─────────────────────────────────────────────────────

/// Of several single-colon rules for a target the last recipe counts, and the
/// prerequisites of all of them.
pub proof fn lemma_last_recipe(
    e: EntryView,
    first: RuleStateView,
    second: RuleStateView,
    target: Seq<char>,
)
    ensures
        second.recipe.len() > 0 ==> with_single(
            with_single(e, first, target),
            second,
            target,
        ).recipe == second.recipe,
        second.recipe.len() == 0 && first.recipe.len() > 0 ==> with_single(
            with_single(e, first, target),
            second,
            target,
        ).recipe == first.recipe,
        forall|i: int|
            0 <= i < prereqs_for(first, target).len() ==> graph::is_prereq(
                with_single(with_single(e, first, target), second, target).prereqs,
                (#[trigger] prereqs_for(first, target)[i]).name,
            ),
        forall|i: int|
            0 <= i < prereqs_for(second, target).len() ==> graph::is_prereq(
                with_single(with_single(e, first, target), second, target).prereqs,
                (#[trigger] prereqs_for(second, target)[i]).name,
            ),
{
    let one = prereqs_for(first, target);
    let two = prereqs_for(second, target);
    let mid = with_single(e, first, target);
    let last = with_single(mid, second, target);
    graph::lemma_merge_keeps(e.prereqs, one, one.len() as int);
    graph::lemma_merge_keeps(mid.prereqs, two, two.len() as int);
    assert forall|i: int| 0 <= i < one.len() implies graph::is_prereq(
        last.prereqs,
        (#[trigger] one[i]).name,
    ) by {
        let j = choose|j: int|
            0 <= j < mid.prereqs.len() && (#[trigger] mid.prereqs[j]).name == one[i].name;
        assert(last.prereqs.take(mid.prereqs.len() as int)[j] == mid.prereqs[j]);
        assert(last.prereqs[j] == mid.prereqs[j]);
    }
}

/// Each double-colon rule is kept for itself: it comes behind the others, and
/// neither these nor the single-colon part of the target change.
pub proof fn lemma_double_colon(e: EntryView, rs: RuleStateView, target: Seq<char>)
    ensures
        with_double(e, rs, target).dc_rules.len() == e.dc_rules.len() + 1,
        with_double(e, rs, target).dc_rules.drop_last() == e.dc_rules,
        with_double(e, rs, target).dc_rules.last().recipe == rs.recipe,
        with_double(e, rs, target).prereqs == e.prereqs,
        with_double(e, rs, target).recipe == e.recipe,
{
    assert(with_double(e, rs, target).dc_rules.drop_last() =~= e.dc_rules);
}

// ── What special targets do ─────────────────────────────────────────────────

/// Whether a name is among some prerequisites.
pub open spec fn is_listed(prereqs: Seq<PrereqView>, name: Seq<char>) -> bool {
    exists|i: int| 0 <= i < prereqs.len() && (#[trigger] prereqs[i]).name == name
}

proof fn lemma_marked_all(g: GraphView, prereqs: Seq<PrereqView>, n: int, m: Mark, x: Seq<char>)
    requires
        0 <= n <= prereqs.len(),
    ensures
        marked_all(g, prereqs, n, m).at(x) == (if is_listed(prereqs.take(n), x) {
            marked(g.at(x), m)
        } else {
            g.at(x)
        }),
        marked_all(g, prereqs, n, m) == (GraphView {
            entries: marked_all(g, prereqs, n, m).entries,
            ..g
        }),
    decreases n,
{
    if n > 0 {
        lemma_marked_all(g, prereqs, n - 1, m, x);
        let a = prereqs.take(n - 1);
        let b = prereqs.take(n);
        assert(b =~= a.push(prereqs[n - 1]));
        if is_listed(a, x) {
            let i = choose|i: int| 0 <= i < a.len() && (#[trigger] a[i]).name == x;
            assert(b[i].name == x);
        }
        assert(b[n - 1] == prereqs[n - 1]);
        if is_listed(b, x) && prereqs[n - 1].name != x {
            let i = choose|i: int| 0 <= i < b.len() && (#[trigger] b[i]).name == x;
            assert(a[i].name == x);
        }
    }
}

/// After a rule for `.PHONY`, `.PRECIOUS`, `.INTERMEDIATE` or `.SECONDARY` every one of its
/// prerequisites, wherever it stands in the list, has the mark, and nothing else is
/// changed: not the other marks of these targets, and nothing of any other target.
pub proof fn lemma_marks_set(mf: MakefileView, rs: RuleStateView, x: Seq<char>)
    ensures
        rs.targets == seq![".PHONY"@] ==> after_special(mf, rs).0 && after_special(
            mf,
            rs,
        ).1.graph.at(x) == (EntryView {
            phony: mf.graph.at(x).phony || is_listed(rs.prereqs, x),
            ..mf.graph.at(x)
        }),
        rs.targets == seq![".PRECIOUS"@] ==> after_special(mf, rs).0 && after_special(
            mf,
            rs,
        ).1.graph.at(x) == (EntryView {
            precious: mf.graph.at(x).precious || is_listed(rs.prereqs, x),
            ..mf.graph.at(x)
        }),
        rs.targets == seq![".INTERMEDIATE"@] ==> after_special(mf, rs).0 && after_special(
            mf,
            rs,
        ).1.graph.at(x) == (EntryView {
            intermediate: mf.graph.at(x).intermediate || is_listed(rs.prereqs, x),
            ..mf.graph.at(x)
        }),
        rs.targets == seq![".SECONDARY"@] ==> after_special(mf, rs).0 && after_special(
            mf,
            rs,
        ).1.graph.at(x) == (EntryView {
            secondary: mf.graph.at(x).secondary || is_listed(rs.prereqs, x),
            ..mf.graph.at(x)
        }),
{
    lemma_special_names();
    if rs.targets.len() == 1 && special_named(rs.targets[0]) is Some {
        let s = special_named(rs.targets[0])->Some_0;
        lemma_one_special(mf, rs, s);
        if let Special::Mark(m) = s {
            lemma_marked_all(mf.graph, rs.prereqs, rs.prereqs.len() as int, m, x);
            assert(rs.prereqs.take(rs.prereqs.len() as int) =~= rs.prereqs);
        }
    }
    assert(rs.targets == seq![".PHONY"@] ==> rs.targets[0] == ".PHONY"@);
    assert(rs.targets == seq![".PRECIOUS"@] ==> rs.targets[0] == ".PRECIOUS"@);
    assert(rs.targets == seq![".INTERMEDIATE"@] ==> rs.targets[0] == ".INTERMEDIATE"@);
    assert(rs.targets == seq![".SECONDARY"@] ==> rs.targets[0] == ".SECONDARY"@);
}

proof fn lemma_one_special(mf: MakefileView, rs: RuleStateView, s: Special)
    requires
        rs.targets.len() == 1,
        special_named(rs.targets[0]) == Some(s),
    ensures
        after_special(mf, rs) == (true, with_special(mf, s, rs)),
{
    reveal_with_fuel(with_specials, 2);
    assert(some_special(rs.targets, 1));
}

/// The names of the special targets, and what each of them stands for.
pub proof fn lemma_special_names()
    ensures
        special_named(".PHONY"@) == Some(Special::Mark(Mark::Phony)),
        special_named(".PRECIOUS"@) == Some(Special::Mark(Mark::Precious)),
        special_named(".INTERMEDIATE"@) == Some(Special::Mark(Mark::Intermediate)),
        special_named(".SECONDARY"@) == Some(Special::Mark(Mark::Secondary)),
        special_named(".SUFFIXES"@) == Some(Special::Suffixes),
        special_named(".DEFAULT"@) == Some(Special::Default),
        special_named(".SECONDEXPANSION"@) == Some(Special::SecondExpansion),
        special_named(".EXPORT_ALL_VARIABLES"@) == Some(Special::ExportAll),
        special_named(".NOTPARALLEL"@) == Some(Special::NotParallel),
        special_named(".IGNORE"@) == Some(Special::Ignore),
        special_named(".SILENT"@) == Some(Special::Silent),
        forall|name: Seq<char>|
            name.len() == 0 || name[0] != '.' ==> #[trigger] special_named(name) is None,
{
    reveal_strlit(".PHONY");
    reveal_strlit(".PRECIOUS");
    reveal_strlit(".INTERMEDIATE");
    reveal_strlit(".SECONDARY");
    reveal_strlit(".SUFFIXES");
    reveal_strlit(".DEFAULT");
    reveal_strlit(".SECONDEXPANSION");
    reveal_strlit(".EXPORT_ALL_VARIABLES");
    reveal_strlit(".NOTPARALLEL");
    reveal_strlit(".IGNORE");
    reveal_strlit(".SILENT");
    assert(".PHONY"@.len() == 6);
    assert(".PRECIOUS"@.len() == 9 && ".SUFFIXES"@.len() == 9);
    assert(".PRECIOUS"@[1] != ".SUFFIXES"@[1]);
    assert(".INTERMEDIATE"@.len() == 13);
    assert(".SECONDARY"@.len() == 10);
    assert(".DEFAULT"@.len() == 8);
    assert(".SECONDEXPANSION"@.len() == 16);
    assert(".EXPORT_ALL_VARIABLES"@.len() == 21);
    assert(".NOTPARALLEL"@.len() == 12);
    assert(".IGNORE"@.len() == 7 && ".SILENT"@.len() == 7);
    assert(".IGNORE"@[1] != ".SILENT"@[1]);
}

/// What the other special targets do: `.DEFAULT` keeps its recipe, `.SUFFIXES` without
/// prerequisites forgets all suffixes, `.IGNORE` and `.SILENT` without prerequisites
/// hold for the whole run, and the rest set a flag each.
pub proof fn lemma_other_specials(mf: MakefileView, rs: RuleStateView)
    ensures
        rs.targets == seq![".DEFAULT"@] && rs.recipe.len() > 0 ==> after_special(mf, rs).1 == (
        MakefileView {
            graph: GraphView { default_recipe: Some(rs.recipe), ..mf.graph },
            ..mf
        }),
        rs.targets == seq![".DEFAULT"@] && rs.recipe.len() == 0 ==> after_special(mf, rs).1 == mf,
        rs.targets == seq![".SUFFIXES"@] && rs.prereqs.len() == 0 ==> after_special(mf, rs).1
            == (MakefileView { graph: GraphView { suffixes: seq![], ..mf.graph }, ..mf }),
        rs.targets == seq![".SECONDEXPANSION"@] ==> after_special(mf, rs).1 == (MakefileView {
            second_expansion: true,
            ..mf
        }),
        rs.targets == seq![".EXPORT_ALL_VARIABLES"@] ==> after_special(mf, rs).1 == (MakefileView {
            vars: VarTableView { export_all: true, ..mf.vars },
            ..mf
        }),
        rs.targets == seq![".NOTPARALLEL"@] ==> after_special(mf, rs).1 == (MakefileView {
            not_parallel: true,
            ..mf
        }),
        rs.targets == seq![".IGNORE"@] && rs.prereqs.len() == 0 ==> after_special(mf, rs).1 == (
        MakefileView { global_ignore: true, ..mf }),
        rs.targets == seq![".IGNORE"@] && rs.prereqs.len() > 0 ==> after_special(mf, rs).1 == mf,
        rs.targets == seq![".SILENT"@] && rs.prereqs.len() == 0 ==> after_special(mf, rs).1 == (
        MakefileView { global_silent: true, ..mf }),
        rs.targets == seq![".SILENT"@] && rs.prereqs.len() > 0 ==> after_special(mf, rs).1 == mf,
{
    lemma_special_names();
    if rs.targets.len() == 1 && special_named(rs.targets[0]) is Some {
        lemma_one_special(mf, rs, special_named(rs.targets[0])->Some_0);
    }
    assert(rs.targets == seq![".DEFAULT"@] ==> rs.targets[0] == ".DEFAULT"@);
    assert(rs.targets == seq![".SUFFIXES"@] ==> rs.targets[0] == ".SUFFIXES"@);
    assert(rs.targets == seq![".SECONDEXPANSION"@] ==> rs.targets[0] == ".SECONDEXPANSION"@);
    assert(rs.targets == seq![".EXPORT_ALL_VARIABLES"@] ==> rs.targets[0]
        == ".EXPORT_ALL_VARIABLES"@);
    assert(rs.targets == seq![".NOTPARALLEL"@] ==> rs.targets[0] == ".NOTPARALLEL"@);
    assert(rs.targets == seq![".IGNORE"@] ==> rs.targets[0] == ".IGNORE"@);
    assert(rs.targets == seq![".SILENT"@] ==> rs.targets[0] == ".SILENT"@);
}

/// `.SUFFIXES` with prerequisites adds each of them that is not known, behind those that
/// are.
pub proof fn lemma_suffixes_added(have: Seq<Seq<char>>, prereqs: Seq<PrereqView>, n: int)
    requires
        0 <= n <= prereqs.len(),
    ensures
        ({
            let all = more_suffixes(have, prereqs, n);
            &&& have.len() <= all.len()
            &&& all.take(have.len() as int) == have
            &&& forall|i: int| 0 <= i < n ==> all.contains((#[trigger] prereqs[i]).name)
            &&& forall|i: int|
                have.len() <= i < all.len() ==> is_listed(prereqs.take(n), #[trigger] all[i])
            &&& have.no_duplicates() ==> all.no_duplicates()
        }),
    decreases n,
{
    if n > 0 {
        lemma_suffixes_added(have, prereqs, n - 1);
        let before = more_suffixes(have, prereqs, n - 1);
        let all = more_suffixes(have, prereqs, n);
        let x = prereqs[n - 1].name;
        text::lemma_push_contains(before, x);
        assert(all.take(have.len() as int) =~= before.take(have.len() as int));
        assert forall|i: int| have.len() <= i < all.len() implies is_listed(
            prereqs.take(n),
            #[trigger] all[i],
        ) by {
            if i < before.len() {
                assert(all[i] == before[i]);
                let a = prereqs.take(n - 1);
                let m = choose|m: int| 0 <= m < a.len() && (#[trigger] a[m]).name == before[i];
                assert(prereqs.take(n)[m].name == before[i]);
            } else {
                assert(prereqs.take(n)[n - 1].name == x);
            }
        }
        assert forall|i: int| 0 <= i < n implies all.contains((#[trigger] prereqs[i]).name) by {
            if i < n - 1 {
                assert(before.contains(prereqs[i].name));
            }
        }
        if have.no_duplicates() && !before.contains(x) {
            assert forall|i: int, j: int| 0 <= i < all.len() && 0 <= j < all.len() && i
                != j implies all[i] != all[j] by {
                if i < before.len() && j < before.len() {
                    assert(before[i] != before[j]);
                } else if i < before.len() {
                    assert(before.contains(before[i]));
                } else {
                    assert(before.contains(before[j]));
                }
            }
        }
    } else {
        assert(have.take(have.len() as int) =~= have);
    }
}

/// A rule without special targets, whose first target with a `%` is `t`, is kept as a
/// pattern rule for `t`, with all its prerequisites and its recipe, behind the others;
/// nothing else changes.
pub proof fn lemma_pattern_rule_kept(
    mf: MakefileView,
    rs: RuleStateView,
    pre: Seq<Seq<char>>,
    t: Seq<char>,
    post: Seq<Seq<char>>,
)
    requires
        rs.targets == pre + seq![t] + post,
        forall|i: int| 0 <= i < pre.len() ==> !(#[trigger] pre[i]).contains('%'),
        t.contains('%'),
        forall|i: int| 0 <= i < rs.targets.len() ==> special_named(#[trigger] rs.targets[i]) is None,
    ensures
        ({
            let done = after_special(mf, rs);
            let have = mf.graph.pattern_rules;
            let r = done.1.graph.pattern_rules[have.len() as int];
            &&& done.0
            &&& done.1 == (MakefileView {
                graph: GraphView { pattern_rules: done.1.graph.pattern_rules, ..mf.graph },
                ..mf
            })
            &&& done.1.graph.pattern_rules.len() == have.len() + 1
            &&& forall|i: int|
                0 <= i < have.len() ==> #[trigger] done.1.graph.pattern_rules[i] == have[i]
            &&& r.target == t
            &&& r.recipe == rs.recipe
            &&& r.loc == rs.loc
            &&& !r.is_builtin
            &&& r.prereqs.len() == rs.prereqs.len()
            &&& forall|i: int|
                0 <= i < rs.prereqs.len() ==> #[trigger] r.prereqs[i] == rs.prereqs[i].name
        }),
{
    let n = rs.targets.len() as int;
    lemma_no_special(mf, rs, n);
    lemma_pattern_at(rs.targets, 0, pre.len() as int);
    assert forall|i: int| 0 <= i < pre.len() implies !(#[trigger] rs.targets[i]).contains('%') by {
        assert(rs.targets[i] == pre[i]);
    }
    assert(rs.targets[pre.len() as int] == t);
}

proof fn lemma_pattern_at(targets: Seq<Seq<char>>, i: int, n: int)
    requires
        0 <= i <= n,
    ensures
        n < targets.len() && targets[n].contains('%') && (forall|j: int|
            i <= j < n ==> !(#[trigger] targets[j]).contains('%')) ==> pattern_target(targets, i)
            == Some(targets[n]),
        n == targets.len() && (forall|j: int|
            i <= j < n ==> !(#[trigger] targets[j]).contains('%')) ==> pattern_target(
            targets,
            i,
        ) is None,
    decreases n - i,
{
    if i < n {
        lemma_pattern_at(targets, i + 1, n);
    }
}

proof fn lemma_no_special(mf: MakefileView, rs: RuleStateView, n: int)
    requires
        0 <= n <= rs.targets.len(),
        forall|i: int| 0 <= i < rs.targets.len() ==> special_named(#[trigger] rs.targets[i]) is None,
    ensures
        with_specials(mf, rs, n) == mf,
        !some_special(rs.targets, n),
    decreases n,
{
    if n > 0 {
        lemma_no_special(mf, rs, n - 1);
    }
}

/// A rule whose targets are neither special nor patterns says nothing of its own.
pub proof fn lemma_ordinary_rule(mf: MakefileView, rs: RuleStateView)
    requires
        forall|i: int|
            0 <= i < rs.targets.len() ==> special_named(#[trigger] rs.targets[i]) is None
                && !rs.targets[i].contains('%'),
    ensures
        after_special(mf, rs) == (false, mf),
{
    lemma_no_special(mf, rs, rs.targets.len() as int);
    lemma_pattern_at(rs.targets, 0, rs.targets.len() as int);
}

// ── What rules do to their targets ──────────────────────────────────────────

/// What a single-colon rule does to a target: its prerequisites are added, its recipe,
/// where it has one, takes the place of another, the first place stays, and nothing
/// else changes.
pub proof fn lemma_single_rule(e: EntryView, rs: RuleStateView, target: Seq<char>)
    ensures
        ({
            let f = with_single(e, rs, target);
            &&& f.recipe == (if rs.recipe.len() > 0 {
                rs.recipe
            } else {
                e.recipe
            })
            &&& f.recipe_loc == (if rs.recipe.len() > 0 {
                Some(rs.loc)
            } else {
                e.recipe_loc
            })
            &&& e.loc is None ==> f.loc == Some(rs.loc)
            &&& e.loc is Some ==> f.loc == e.loc
            &&& e.prereqs.len() <= f.prereqs.len()
            &&& f.prereqs.take(e.prereqs.len() as int) == e.prereqs
            &&& forall|i: int|
                0 <= i < prereqs_for(rs, target).len() ==> is_listed(
                    f.prereqs,
                    (#[trigger] prereqs_for(rs, target)[i]).name,
                )
            &&& forall|i: int|
                e.prereqs.len() <= i < f.prereqs.len() ==> prereqs_for(rs, target).contains(
                    #[trigger] f.prereqs[i],
                )
            &&& f == (EntryView {
                prereqs: f.prereqs,
                recipe: f.recipe,
                recipe_loc: f.recipe_loc,
                loc: f.loc,
                ..e
            })
        }),
{
    let more = prereqs_for(rs, target);
    let f = with_single(e, rs, target);
    graph::lemma_merge_keeps(e.prereqs, more, more.len() as int);
    graph::lemma_merge_adds(e.prereqs, more, more.len() as int);
    assert forall|i: int| 0 <= i < more.len() implies is_listed(
        f.prereqs,
        (#[trigger] more[i]).name,
    ) by {
        assert(graph::is_prereq(f.prereqs, more[i].name));
        let j = choose|j: int|
            0 <= j < f.prereqs.len() && (#[trigger] f.prereqs[j]).name == more[i].name;
        assert(f.prereqs[j].name == more[i].name);
    }
    assert forall|i: int| e.prereqs.len() <= i < f.prereqs.len() implies more.contains(
        #[trigger] f.prereqs[i],
    ) by {
        let j = choose|j: int| 0 <= j < more.len() && #[trigger] more[j] == f.prereqs[i];
        assert(more[j] == f.prereqs[i]);
    }
}

/// What a double-colon rule does to a target: it is added behind the others, with its
/// own prerequisites, recipe and place.
pub proof fn lemma_double_rule(e: EntryView, rs: RuleStateView, target: Seq<char>)
    ensures
        ({
            let f = with_double(e, rs, target);
            let r = f.dc_rules.last();
            &&& f == (EntryView { dc_rules: f.dc_rules, ..e })
            &&& f.dc_rules == e.dc_rules.push(r)
            &&& r.targets == seq![target]
            &&& r.prereqs == prereqs_for(rs, target)
            &&& r.recipe == rs.recipe
            &&& r.loc == rs.loc
            &&& r.double_colon
        }),
{
    assert(with_double(e, rs, target).dc_rules =~= e.dc_rules.push(
        with_double(e, rs, target).dc_rules.last(),
    ));
}

/// Without a target pattern the prerequisites of a rule are those of each of its targets.
/// With one, a target that fits it has the text for which `%` stands put into each of
/// them, in the place of the first `%`.
pub proof fn lemma_static_pattern(
    rs: RuleStateView,
    target: Seq<char>,
    pre: Seq<char>,
    x: Seq<char>,
    post: Seq<char>,
    i: int,
    a: Seq<char>,
    b: Seq<char>,
)
    requires
        0 <= i < rs.prereqs.len(),
    ensures
        rs.static_pattern is None ==> prereqs_for(rs, target) == rs.prereqs,
        rs.static_pattern is Some ==> prereqs_for(rs, target).len() == rs.prereqs.len()
            && prereqs_for(rs, target)[i].order_only == rs.prereqs[i].order_only,
        !pre.contains('%') && rs.static_pattern == Some(pre + seq!['%'] + post) && target == pre + x
            + post ==> {
            let given = prereqs_for(rs, target)[i].name;
            &&& !rs.prereqs[i].name.contains('%') ==> given == rs.prereqs[i].name
            &&& !a.contains('%') && rs.prereqs[i].name == a + seq!['%'] + b ==> given == a + x + b
        },
        rs.static_pattern matches Some(pat) ==> (rule::stem(target, pat) is None ==> prereqs_for(
            rs,
            target,
        ) == rs.prereqs),
{
    if !pre.contains('%') && rs.static_pattern == Some(pre + seq!['%'] + post) && target == pre + x
        + post {
        rule::lemma_pattern_parts(pre, post, x);
        if !rs.prereqs[i].name.contains('%') {
            rule::lemma_match_plain(target, rs.prereqs[i].name, x);
        }
        if !a.contains('%') && rs.prereqs[i].name == a + seq!['%'] + b {
            rule::lemma_pattern_parts(a, b, x);
        }
    }
}

/// A rule is added to each of its targets, whatever the place in the list, and to no
/// other; the first target that may be the default goal is noted.
pub proof fn lemma_all_targets(
    mf: MakefileView,
    rs: RuleStateView,
    log: Seq<AnswerView>,
    k: nat,
    x: Seq<char>,
)
    requires
        rs.target_var is None,
        rs.targets.no_duplicates(),
    ensures
        committed(mf, rs, log, k) matches Ok(p) ==> {
            &&& p.0.graph.at(x) == (if !rs.targets.contains(x) {
                mf.graph.at(x)
            } else if rs.double_colon {
                with_double(mf.graph.at(x), rs, x)
            } else {
                with_single(mf.graph.at(x), rs, x)
            })
            &&& p.0 == (MakefileView {
                graph: p.0.graph,
                first_target: p.0.first_target,
                ..mf
            })
            &&& mf.first_target is Some ==> p.0.first_target == mf.first_target
            &&& mf.first_target is None ==> match p.0.first_target {
                Some(t) => rs.targets.contains(t) && !(t.len() > 0 && t[0] == '.'),
                None => forall|i: int|
                    0 <= i < rs.targets.len() ==> (#[trigger] rs.targets[i]).len() > 0
                        && rs.targets[i][0] == '.',
            }
        },
{
    lemma_targets_from(mf, rs, 0, log, k, x);
    assert(rs.targets.skip(0) =~= rs.targets);
}

proof fn lemma_targets_from(
    mf: MakefileView,
    rs: RuleStateView,
    i: int,
    log: Seq<AnswerView>,
    k: nat,
    x: Seq<char>,
)
    requires
        0 <= i <= rs.targets.len(),
        rs.targets.no_duplicates(),
    ensures
        committed_from(mf, rs, i, log, k) matches Ok(p) ==> {
            &&& p.0.graph.at(x) == (if !rs.targets.skip(i).contains(x) {
                mf.graph.at(x)
            } else if rs.double_colon {
                with_double(mf.graph.at(x), rs, x)
            } else {
                with_single(mf.graph.at(x), rs, x)
            })
            &&& p.0 == (MakefileView {
                graph: p.0.graph,
                first_target: p.0.first_target,
                ..mf
            })
            &&& mf.first_target is Some ==> p.0.first_target == mf.first_target
            &&& mf.first_target is None ==> match p.0.first_target {
                Some(t) => rs.targets.contains(t) && !(t.len() > 0 && t[0] == '.'),
                None => forall|j: int|
                    i <= j < rs.targets.len() ==> (#[trigger] rs.targets[j]).len() > 0
                        && rs.targets[j][0] == '.',
            }
        },
    decreases rs.targets.len() - i,
{
    if i < rs.targets.len() {
        let t = rs.targets[i];
        if let Ok(p) = committed_one(mf, rs, t, log, k) {
            lemma_targets_from(p.0, rs, i + 1, log, p.1, x);
            let now = rs.targets.skip(i);
            let rest = rs.targets.skip(i + 1);
            assert(now =~= seq![t] + rest);
            assert(now.contains(x) == (x == t || rest.contains(x))) by {
                assert(now[0] == t);
                if rest.contains(x) {
                    let j = choose|j: int| 0 <= j < rest.len() && rest[j] == x;
                    assert(now[j + 1] == x);
                }
                if now.contains(x) && x != t {
                    let j = choose|j: int| 0 <= j < now.len() && now[j] == x;
                    assert(rest[j - 1] == x);
                }
            }
            if rest.contains(t) {
                let j = choose|j: int| 0 <= j < rest.len() && rest[j] == t;
                assert(rs.targets[i + 1 + j] == rs.targets[i]);
            }
            assert(rs.targets.contains(t));
            if x != t {
                assert(p.0.graph.at(x) == mf.graph.at(x));
            }
        }
    } else {
        assert(rs.targets.skip(i).len() == 0);
    }
}

/// A header without references: the targets are the words before the colon, the
/// prerequisites those behind it, and a second colon right behind the first makes it a
/// double-colon rule.
pub proof fn lemma_header(
    a: Seq<char>,
    b: Seq<char>,
    vars: VarTableView,
    loc: LocView,
    log: Seq<AnswerView>,
    k: nat,
)
    requires
        forall|j: int|
            0 <= j < a.len() ==> #[trigger] a[j] != '$' && a[j] != ':' && a[j] != '=' && a[j] != '('
                && a[j] != ')' && a[j] != '{' && a[j] != '}',
        forall|j: int|
            0 <= j < b.len() ==> #[trigger] b[j] != '$' && b[j] != ':' && b[j] != '=' && b[j] != '('
                && b[j] != ')' && b[j] != '{' && b[j] != '}',
        text::words(text::trim(a)).len() > 0,
    ensures
        header(a + seq![':'] + b, vars, loc, log, k) == Ok::<
            (Option<RuleStateView>, nat),
            (StopView, nat),
        >(
            (
                Some(
                    RuleStateView {
                        targets: text::words(text::trim(a)),
                        prereqs: lines::prereqs_in(text::trim(b)),
                        double_colon: false,
                        loc,
                        recipe: seq![],
                        static_pattern: None,
                        target_var: None,
                    },
                ),
                k,
            ),
        ),
        header(a + seq![':', ':'] + b, vars, loc, log, k) == Ok::<
            (Option<RuleStateView>, nat),
            (StopView, nat),
        >(
            (
                Some(
                    RuleStateView {
                        targets: text::words(text::trim(a)),
                        prereqs: lines::prereqs_in(text::trim(b)),
                        double_colon: true,
                        loc,
                        recipe: seq![],
                        static_pattern: None,
                        target_var: None,
                    },
                ),
                k,
            ),
        ),
{
    let s = a + seq![':'] + b;
    let d = a + seq![':', ':'] + b;
    let n = a.len() as int;
    assert(s[n] == ':' && d[n] == ':' && d[n + 1] == ':');
    assert forall|j: int| 0 <= j < n implies s[j] == a[j] && d[j] == a[j] by {}
    lemma_level(s, a, n);
    lemma_level(d, a, n);
    assert(lines::first_sign(s, n)) by {
        assert forall|j: int| 0 <= j < n && (#[trigger] s[j] == ':' || s[j]
            == '=') implies lines::depth_of(s, j) > 0 by {
            assert(s[j] == a[j]);
        }
    }
    assert(lines::first_sign(d, n)) by {
        assert forall|j: int| 0 <= j < n && (#[trigger] d[j] == ':' || d[j]
            == '=') implies lines::depth_of(d, j) > 0 by {
            assert(d[j] == a[j]);
        }
    }
    if b.len() > 0 {
        assert(s[n + 1] == b[0]);
    }
    lines::lemma_rule_or_assignment(s, n);
    lines::lemma_rule_or_assignment(d, n);
    assert(s.take(n) =~= a);
    assert(d.take(n) =~= a);
    assert(s.skip(n + 1) =~= b);
    assert(d.skip(n + 1) =~= seq![':'] + b);
    assert((seq![':'] + b).skip(1) =~= b);
    lemma_trim_within(a);
    lemma_trim_within(b);
    let p = text::trim(a);
    let q = text::trim(b);
    assert forall|j: int| 0 <= j < p.len() implies #[trigger] p[j] != '$' by {
        assert(a.contains(p[j]));
    }
    assert forall|j: int| 0 <= j < q.len() implies #[trigger] q[j] != '$' && q[j] != ':' && q[j]
        != '=' by {
        assert(b.contains(q[j]));
    }
    expand::lemma_plain_text(p, seq![], vars, None, loc, false, log, k);
    expand::lemma_plain_text(q, seq![], vars, None, loc, false, log, k);
    lines::lemma_rule_or_assignment(q, 0);
    lines::lemma_pattern_colon(b, 0);
    assert forall|j: int| !#[trigger] lines::colon_at(b, j) by {}
    assert(lines::pattern_colon(b, 0, 0) is None);
    assert(static_parts(text::words(p), b) == (None::<Seq<char>>, b));
}

proof fn lemma_level(s: Seq<char>, a: Seq<char>, n: int)
    requires
        0 <= n <= a.len(),
        n <= s.len(),
        forall|j: int| 0 <= j < n ==> s[j] == a[j],
        forall|j: int|
            0 <= j < a.len() ==> #[trigger] a[j] != '(' && a[j] != ')' && a[j] != '{' && a[j]
                != '}',
    ensures
        lines::depth_of(s, n) == 0,
    decreases n,
{
    if n > 0 {
        lemma_level(s, a, n - 1);
        assert(s[n - 1] == a[n - 1]);
    }
}

proof fn lemma_trim_within(a: Seq<char>)
    ensures
        forall|j: int| 0 <= j < text::trim(a).len() ==> a.contains(#[trigger] text::trim(a)[j]),
{
    text::lemma_trim(a);
    let (x, y) = choose|x: Seq<char>, y: Seq<char>| #[trigger]
        text::is_blank(x) && #[trigger] text::is_blank(y) && a == x + text::trim(a) + y;
    assert forall|j: int| 0 <= j < text::trim(a).len() implies a.contains(
        #[trigger] text::trim(a)[j],
    ) by {
        assert(a[x.len() + j] == text::trim(a)[j]);
    }
}

/// A header with an assignment behind a single target sets a variable of that target.
pub proof fn lemma_target_variable(targets: Seq<Seq<char>>, raw: Seq<char>, i: int)
    requires
        targets.len() == 1,
        lines::first_sign(text::trim(raw), i),
        text::trim(raw)[i] == '=' || (i + 1 < text::trim(raw).len() && text::trim(raw)[i + 1]
            == '='),
    ensures
        static_parts(targets, raw) == (None::<Seq<char>>, raw),
        target_assignment(targets, None, raw) matches Some(v) && v.0 == targets[0] && v.1.3
            is File && lines::assignment(text::trim(raw)) == Some(
            lines::AssignView {
                name: lines::assignment(text::trim(raw))->Some_0.name,
                flavor: v.1.2,
                value: lines::assignment(text::trim(raw))->Some_0.value,
            },
        ) && v.1.0 == text::trim(lines::assignment(text::trim(raw))->Some_0.name) && v.1.1
            == text::trim_start(lines::assignment(text::trim(raw))->Some_0.value),
{
    lines::lemma_rule_or_assignment(text::trim(raw), i);
    lines::lemma_assigns_splits(text::trim(raw));
}

/// A second recipe for a target is warned of, once for the new and once for the old place;
/// where one of the two rules has no recipe, there is no warning.
pub proof fn lemma_recipe_warnings(
    e: EntryView,
    rs: RuleStateView,
    target: Seq<char>,
    log: Seq<AnswerView>,
    k: nat,
)
    ensures
        ({
            let r = recipe_warnings(e, rs, target, log, k);
            let both = e.recipe.len() > 0 && rs.recipe.len() > 0;
            let place = if e.recipe_loc is Some {
                e.recipe_loc->Some_0
            } else {
                rs.loc
            };
            &&& !both ==> r == Ok::<((), nat), (StopView, nat)>(((), k))
            &&& both && k >= log.len() ==> r == Err::<((), nat), (StopView, nat)>(
                (
                    StopView::Ask(
                        QueryView::Warn(
                            error::loc_text(rs.loc) + ": warning: overriding recipe for target '"@
                                + target + "'"@,
                        ),
                    ),
                    k,
                ),
            )
            &&& both && k + 1 == log.len() ==> r == Err::<((), nat), (StopView, nat)>(
                (
                    StopView::Ask(
                        QueryView::Warn(
                            error::loc_text(place) + ": warning: ignoring old recipe for target '"@
                                + target + "'"@,
                        ),
                    ),
                    k + 1,
                ),
            )
            &&& both && k + 1 < log.len() ==> r == Ok::<((), nat), (StopView, nat)>(((), k + 2))
        }),
{
}

/// The default goal that a rule brings is the first of its targets that does not begin
/// with a dot, where there is none yet.
pub proof fn lemma_first_target(
    mf: MakefileView,
    rs: RuleStateView,
    i: int,
    n: int,
    log: Seq<AnswerView>,
    k: nat,
)
    requires
        0 <= i <= n < rs.targets.len(),
        mf.first_target is None,
        forall|j: int|
            i <= j < n ==> (#[trigger] rs.targets[j]).len() > 0 && rs.targets[j][0] == '.',
        rs.targets[n].len() == 0 || rs.targets[n][0] != '.',
    ensures
        committed_from(mf, rs, i, log, k) matches Ok(p) ==> p.0.first_target == Some(rs.targets[n]),
    decreases n - i,
{
    if let Ok(q) = committed_one(mf, rs, rs.targets[i], log, k) {
        if i < n {
            lemma_first_target(q.0, rs, i + 1, n, log, q.1);
        } else {
            lemma_target_stays(q.0, rs, i + 1, log, q.1);
        }
    }
}

proof fn lemma_target_stays(
    mf: MakefileView,
    rs: RuleStateView,
    i: int,
    log: Seq<AnswerView>,
    k: nat,
)
    requires
        0 <= i <= rs.targets.len(),
        mf.first_target is Some,
    ensures
        committed_from(mf, rs, i, log, k) matches Ok(p) ==> p.0.first_target == mf.first_target,
    decreases rs.targets.len() - i,
{
    if i < rs.targets.len() {
        if let Ok(q) = committed_one(mf, rs, rs.targets[i], log, k) {
            lemma_target_stays(q.0, rs, i + 1, log, q.1);
        }
    }
}

} // verus!
