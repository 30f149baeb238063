//! The listing of all variables and rules.

use vstd::prelude::*;
use crate::names;
use crate::text;
use crate::text::{append_str, chars_of, join_strings, owned, string_of};
use super::graph;
use super::graph::{EntryView, TargetEntry};
use super::rule::{PatternRule, PatternRuleView, Prereq, PrereqView, RuleView};
use super::rules;
use super::var;
use super::var::{Flavor, Var, VarTableView, VarView};
use super::{Makefile, MakefileView};

verus! {

/// The operator that sets a variable of some flavor.
pub open spec fn operator(f: Flavor) -> Seq<char> {
    match f {
        Flavor::Simple => ":="@,
        Flavor::Recursive => "="@,
        Flavor::Append => "+="@,
        Flavor::Conditional => "?="@,
    }
}

fn operator_of(f: Flavor) -> (r: &'static str)
    ensures
        r@ == operator(f),
{
    match f {
        Flavor::Simple => ":=",
        Flavor::Recursive => "=",
        Flavor::Append => "+=",
        Flavor::Conditional => "?=",
    }
}

/// The two lines for a variable.
pub open spec fn var_lines(name: Seq<char>, v: VarView) -> Seq<Seq<char>> {
    seq![
        "# "@ + var::origin_name(v.origin),
        name + " "@ + operator(v.flavor) + " "@ + v.raw,
    ]
}

/// The lines for the first `n` names.
pub open spec fn all_var_lines(vars: VarTableView, list: Seq<Seq<char>>, n: int) -> Seq<Seq<char>>
    decreases n,
{
    if n <= 0 {
        seq![]
    } else {
        all_var_lines(vars, list, n - 1) + var_lines(list[n - 1], vars.vars[list[n - 1]])
    }
}

/// The line for a pattern rule.
pub open spec fn pattern_line(r: PatternRuleView) -> Seq<char> {
    r.target + ": "@ + text::join(r.prereqs, " "@)
}

/// The names of prerequisites, with spaces between them.
pub open spec fn prereq_text(prereqs: Seq<PrereqView>) -> Seq<char> {
    text::join(rules::names_of(prereqs), " "@)
}

/// The lines for the first `n` double-colon rules of a target.
pub open spec fn double_lines(name: Seq<char>, list: Seq<RuleView>, n: int) -> Seq<Seq<char>>
    decreases n,
{
    if n <= 0 {
        seq![]
    } else {
        double_lines(name, list, n - 1).push(
            name + ":: "@ + prereq_text(list[n - 1].prereqs),
        )
    }
}

/// The lines for a target: one for each double-colon rule, or one for all other
/// rules.
pub open spec fn target_lines(name: Seq<char>, e: EntryView) -> Seq<Seq<char>> {
    if e.dc_rules.len() > 0 {
        double_lines(name, e.dc_rules, e.dc_rules.len() as int)
    } else {
        seq![name + ": "@ + prereq_text(e.prereqs)]
    }
}

/// The lines for the first `n` targets.
pub open spec fn all_target_lines(
    entries: Map<Seq<char>, EntryView>,
    list: Seq<Seq<char>>,
    n: int,
) -> Seq<Seq<char>>
    decreases n,
{
    if n <= 0 {
        seq![]
    } else {
        all_target_lines(entries, list, n - 1) + target_lines(list[n - 1], entries[list[n - 1]])
    }
}

/// The listing: the variables by name, the pattern rules in their order, the
/// targets by name.
pub open spec fn database(mf: MakefileView) -> Seq<Seq<char>> {
    let vars = names::listing_of(mf.vars.vars.dom());
    let targets = names::listing_of(mf.graph.entries.dom());
    seq!["# Variables"@] + all_var_lines(mf.vars, vars, vars.len() as int) + seq![
        ""@,
        "# Pattern rules"@,
    ] + mf.graph.pattern_rules.map_values(|r: PatternRuleView| pattern_line(r)) + seq![
        ""@,
        "# Explicit rules"@,
    ] + all_target_lines(mf.graph.entries, targets, targets.len() as int)
}

fn put(out: &mut Vec<String>, line: &[char])
    ensures
        text::views(final(out)@) == text::views(old(out)@).push(line@),
{
    broadcast use text::group_views;

    out.push(string_of(line));
}

fn put_var(out: &mut Vec<String>, name: &str, v: &Var)
    ensures
        text::views(final(out)@) == text::views(old(out)@) + var_lines(name@, v@),
{
    let ghost before = text::views(out@);
    let mut first = chars_of("# ");
    append_str(&mut first, v.origin.name());
    put(out, first.as_slice());
    let mut second = chars_of(name);
    append_str(&mut second, " ");
    append_str(&mut second, operator_of(v.flavor));
    append_str(&mut second, " ");
    append_str(&mut second, v.raw.as_str());
    put(out, second.as_slice());
    proof {
        assert(text::views(out@) =~= before + var_lines(name@, v@));
    }
}

fn join_names(prereqs: &[Prereq]) -> (r: String)
    ensures
        r@ == prereq_text(text::views(prereqs@)),
{
    let mut list: Vec<String> = Vec::new();
    let mut i: usize = 0;
    while i < prereqs.len()
        invariant
            i <= prereqs@.len(),
            list@.len() == i,
            forall|n: int| 0 <= n < i ==> (#[trigger] list@[n])@ == prereqs@[n].name@,
        decreases prereqs.len() - i,
    {
        list.push(owned(prereqs[i].name.as_str()));
        i = i + 1;
    }
    assert(text::views(list@) =~= rules::names_of(text::views(prereqs@)));
    join_strings(list.as_slice(), " ")
}

fn put_pattern(out: &mut Vec<String>, r: &PatternRule)
    ensures
        text::views(final(out)@) == text::views(old(out)@).push(pattern_line(r@)),
{
    let mut line = chars_of(r.target.as_str());
    append_str(&mut line, ": ");
    append_str(&mut line, join_strings(r.prereqs.as_slice(), " ").as_str());
    put(out, line.as_slice());
}

fn put_target(out: &mut Vec<String>, name: &str, e: &TargetEntry)
    ensures
        text::views(final(out)@) == text::views(old(out)@) + target_lines(name@, e@),
{
    let ghost before = text::views(out@);
    if e.double_colon_exists() {
        let ghost list = e@.dc_rules;
        let mut i: usize = 0;
        proof {
            assert(before + double_lines(name@, list, 0) =~= before);
        }
        while i < e.dc_rules.len()
            invariant
                i <= e.dc_rules@.len(),
                list == e@.dc_rules,
                text::views(out@) == before + double_lines(name@, list, i as int),
            decreases e.dc_rules.len() - i,
        {
            let mut line = chars_of(name);
            append_str(&mut line, ":: ");
            append_str(&mut line, join_names(e.dc_rules[i].prereqs.as_slice()).as_str());
            assert(list[i as int] == e.dc_rules@[i as int]@);
            put(out, line.as_slice());
            proof {
                assert((before + double_lines(name@, list, i as int)).push(line@) =~= before
                    + double_lines(name@, list, i + 1));
            }
            i = i + 1;
        }
    } else {
        let mut line = chars_of(name);
        append_str(&mut line, ": ");
        append_str(&mut line, join_names(e.prereqs.as_slice()).as_str());
        put(out, line.as_slice());
        proof {
            assert(text::views(out@) =~= before + target_lines(name@, e@));
        }
    }
}

impl Makefile {
    fn put_vars(&self, out: &mut Vec<String>)
        ensures
            text::views(final(out)@) == text::views(old(out)@) + all_var_lines(
                self@.vars,
                names::listing_of(self@.vars.vars.dom()),
                names::listing_of(self@.vars.vars.dom()).len() as int,
            ),
    {
        let ghost before = text::views(out@);
        let list = self.vars.iter();
        let ghost all = list@.map_values(|p: (&str, &Var)| p.0@);
        proof {
            assert(all.to_set() =~= self@.vars.vars.dom()) by {
                assert forall|x: Seq<char>| all.to_set().contains(x)
                    == self@.vars.vars.dom().contains(x) by {
                    if all.contains(x) {
                        let k = choose|k: int| 0 <= k < all.len() && all[k] == x;
                        assert(self@.vars.at(list@[k].0@) == Some(list@[k].1@));
                    }
                    if self@.vars.has(x) {
                        let k = choose|k: int|
                            0 <= k < list@.len() && (#[trigger] list@[k]).0@ == x;
                        assert(all[k] == x);
                    }
                }
            }
            names::lemma_listing(all, self@.vars.vars.dom());
            assert(before + all_var_lines(self@.vars, all, 0) =~= before);
        }
        let mut i: usize = 0;
        while i < list.len()
            invariant
                i <= list@.len(),
                all == list@.map_values(|p: (&str, &Var)| p.0@),
                forall|k: int|
                    0 <= k < list@.len() ==> self@.vars.at((#[trigger] list@[k]).0@) == Some(
                        list@[k].1@,
                    ),
                text::views(out@) == before + all_var_lines(self@.vars, all, i as int),
            decreases list.len() - i,
        {
            let (name, v) = list[i];
            assert(all[i as int] == name@);
            assert(self@.vars.at(list@[i as int].0@) == Some(v@));
            put_var(out, name, v);
            proof {
                assert(before + all_var_lines(self@.vars, all, i as int) + var_lines(name@, v@)
                    =~= before + all_var_lines(self@.vars, all, i + 1));
            }
            i = i + 1;
        }
    }

    fn put_patterns(&self, out: &mut Vec<String>)
        ensures
            text::views(final(out)@) == text::views(old(out)@)
                + self@.graph.pattern_rules.map_values(|r: PatternRuleView| pattern_line(r)),
    {
        let ghost before = text::views(out@);
        let ghost all = self@.graph.pattern_rules.map_values(
            |r: PatternRuleView| pattern_line(r),
        );
        let mut i: usize = 0;
        proof {
            assert(before + all.take(0) =~= before);
        }
        while i < self.graph.pattern_rules.len()
            invariant
                i <= self.graph.pattern_rules@.len(),
                all == self@.graph.pattern_rules.map_values(
                    |r: PatternRuleView| pattern_line(r),
                ),
                text::views(out@) == before + all.take(i as int),
            decreases self.graph.pattern_rules.len() - i,
        {
            assert(self@.graph.pattern_rules[i as int] == self.graph.pattern_rules@[i as int]@);
            put_pattern(out, &self.graph.pattern_rules[i]);
            proof {
                assert((before + all.take(i as int)).push(all[i as int]) =~= before + all.take(
                    i + 1,
                ));
            }
            i = i + 1;
        }
        proof {
            assert(all.take(i as int) =~= all);
        }
    }

    fn put_targets(&self, out: &mut Vec<String>)
        ensures
            text::views(final(out)@) == text::views(old(out)@) + all_target_lines(
                self@.graph.entries,
                names::listing_of(self@.graph.entries.dom()),
                names::listing_of(self@.graph.entries.dom()).len() as int,
            ),
    {
        let ghost before = text::views(out@);
        self.graph.entries.listing();
        let ghost all = self.graph.entries.names();
        let ghost entries = self.graph.entries@;
        let n = self.graph.entries.len();
        let mut i: usize = 0;
        proof {
            assert(before + all_target_lines(entries, all, 0) =~= before);
        }
        while i < n
            invariant
                i <= n,
                n == all.len(),
                all == self.graph.entries.names(),
                entries == self.graph.entries@,
                forall|k: int|
                    0 <= k < all.len() ==> entries.dom().contains(#[trigger] all[k])
                        && entries[all[k]] == self.graph.entries.nth(k),
                text::views(out@) == before + all_target_lines(entries, all, i as int),
            decreases n - i,
        {
            let name = self.graph.entries.name_at(i);
            let e = self.graph.entries.value_at(i);
            put_target(out, name, e);
            proof {
                assert(entries.dom().contains(all[i as int]));
                assert(before + all_target_lines(entries, all, i as int) + target_lines(
                    name@,
                    e@,
                ) =~= before + all_target_lines(entries, all, i + 1));
            }
            i = i + 1;
        }
    }

    /// The variable/rule database (-p flag output), line by line.
    pub fn print_db(&self) -> (r: Vec<String>)
        ensures
            text::views(r@) == database(self@),
    {
        broadcast use text::group_views;

        let mut out: Vec<String> = Vec::new();
        out.push(owned("# Variables"));
        assert(text::views(out@) =~= seq!["# Variables"@]);
        self.put_vars(&mut out);
        let ghost a = text::views(out@);
        out.push(owned(""));
        out.push(owned("# Pattern rules"));
        assert(text::views(out@) =~= a + seq![""@, "# Pattern rules"@]);
        self.put_patterns(&mut out);
        let ghost b = text::views(out@);
        out.push(owned(""));
        out.push(owned("# Explicit rules"));
        assert(text::views(out@) =~= b + seq![""@, "# Explicit rules"@]);
        self.put_targets(&mut out);
        out
    }
}

// ── What holds of the listing ───────────────────────────────────────────────

/// In the listing each variable has two lines, with its origin and with its definition, in
/// the order of the names.
pub proof fn lemma_listed_vars(mf: MakefileView, i: int)
    requires
        0 <= i < names::listing_of(mf.vars.vars.dom()).len(),
    ensures
        ({
            let name = names::listing_of(mf.vars.vars.dom())[i];
            let v = mf.vars.vars[name];
            let op = match v.flavor {
                Flavor::Simple => seq![':', '='],
                Flavor::Recursive => seq!['='],
                Flavor::Append => seq!['+', '='],
                Flavor::Conditional => seq!['?', '='],
            };
            &&& database(mf)[0] == "# Variables"@
            &&& database(mf)[1 + 2 * i] == seq!['#', ' '] + var::origin_name(v.origin)
            &&& database(mf)[2 + 2 * i] == name + seq![' '] + op + seq![' '] + v.raw
        }),
{
    let list = names::listing_of(mf.vars.vars.dom());
    lemma_var_lines(mf.vars, list, list.len() as int, i);
    reveal_strlit("# ");
    reveal_strlit(" ");
    reveal_strlit(":=");
    reveal_strlit("=");
    reveal_strlit("+=");
    reveal_strlit("?=");
    assert("# "@ =~= seq!['#', ' ']);
    assert(" "@ =~= seq![' ']);
    assert(":="@ =~= seq![':', '=']);
    assert("="@ =~= seq!['=']);
    assert("+="@ =~= seq!['+', '=']);
    assert("?="@ =~= seq!['?', '=']);
}

proof fn lemma_var_lines(vars: VarTableView, list: Seq<Seq<char>>, n: int, i: int)
    requires
        0 <= i < n <= list.len(),
    ensures
        all_var_lines(vars, list, n).len() == 2 * n,
        all_var_lines(vars, list, n)[2 * i] == var_lines(list[i], vars.vars[list[i]])[0],
        all_var_lines(vars, list, n)[2 * i + 1] == var_lines(list[i], vars.vars[list[i]])[1],
    decreases n,
{
    if n > 1 {
        if i < n - 1 {
            lemma_var_lines(vars, list, n - 1, i);
        } else {
            lemma_var_lines(vars, list, n - 1, 0);
        }
    } else {
        assert(all_var_lines(vars, list, 0).len() == 0);
    }
}

/// A target with single-colon rules has one line, and one with double-colon rules a line for
/// each of them; a pattern rule has one, with its prerequisites behind it.
pub proof fn lemma_listed_rules(name: Seq<char>, e: EntryView, r: PatternRuleView, j: int)
    ensures
        e.dc_rules.len() == 0 ==> target_lines(name, e) == seq![
            name + seq![':', ' '] + text::join(graph::prereq_names(e.prereqs), seq![' ']),
        ],
        e.dc_rules.len() > 0 ==> target_lines(name, e).len() == e.dc_rules.len(),
        0 <= j < e.dc_rules.len() ==> target_lines(name, e)[j] == name + seq![':', ':', ' ']
            + text::join(graph::prereq_names(e.dc_rules[j].prereqs), seq![' ']),
        pattern_line(r) == r.target + seq![':', ' '] + text::join(r.prereqs, seq![' ']),
{
    reveal_strlit(": ");
    reveal_strlit(":: ");
    reveal_strlit(" ");
    assert(": "@ =~= seq![':', ' ']);
    assert(":: "@ =~= seq![':', ':', ' ']);
    assert(" "@ =~= seq![' ']);
    assert(rules::names_of(e.prereqs) =~= graph::prereq_names(e.prereqs));
    if e.dc_rules.len() > 0 {
        lemma_double_lines(name, e.dc_rules, e.dc_rules.len() as int, j);
        if 0 <= j < e.dc_rules.len() {
            let list = e.dc_rules[j].prereqs;
            assert(rules::names_of(list) =~= graph::prereq_names(list));
        }
    }
}

proof fn lemma_double_lines(name: Seq<char>, list: Seq<RuleView>, n: int, j: int)
    requires
        0 <= n <= list.len(),
    ensures
        double_lines(name, list, n).len() == n,
        0 <= j < n ==> double_lines(name, list, n)[j] == name + ":: "@ + prereq_text(
            list[j].prereqs,
        ),
    decreases n,
{
    if n > 0 {
        lemma_double_lines(name, list, n - 1, j);
    }
}

} // verus!
