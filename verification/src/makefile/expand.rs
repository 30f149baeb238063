//! Variable expansion and the calls of functions.

use vstd::prelude::*;
use crate::error::{Error, ErrorView, Loc, LocView};
use crate::names;
use crate::names::NameMap;
use crate::number;
use crate::number::decimal_chars;
use crate::search::between;
use crate::text;
use crate::text::{
    append,
    append_str,
    chars_of,
    from,
    has_word,
    join_chars,
    owned,
    split_words,
    string_of,
    strings_of,
    trimmed,
    trimmed_start,
    upto,
    Dup,
    Words,
};
use crate::world;
use crate::world::{Answer, AnswerView, Query, QueryView, Stop, StopView, Told, Transcript};
use super::functions;
use super::functions::{argument, call_plain, dir_chars, function_of, notdir_chars, Function};
use super::lines;
use super::outside;
use super::outside::call_outside;
use super::var::{Flavor, VarTable, VarTableView};

verus! {

/// Automatic variables available inside a recipe.
#[derive(Debug)]
pub struct AutoVars {
    pub target: String,
    pub first_prereq: String,
    pub all_prereqs: String,
    pub all_prereqs_dup: String,
    pub newer_prereqs: String,
    pub stem: String,
    pub order_only: String,
}

pub struct AutoView {
    pub target: Seq<char>,
    pub first_prereq: Seq<char>,
    pub all_prereqs: Seq<char>,
    pub all_prereqs_dup: Seq<char>,
    pub newer_prereqs: Seq<char>,
    pub stem: Seq<char>,
    pub order_only: Seq<char>,
}

impl View for AutoVars {
    type V = AutoView;

    open spec fn view(&self) -> AutoView {
        AutoView {
            target: self.target@,
            first_prereq: self.first_prereq@,
            all_prereqs: self.all_prereqs@,
            all_prereqs_dup: self.all_prereqs_dup@,
            newer_prereqs: self.newer_prereqs@,
            stem: self.stem@,
            order_only: self.order_only@,
        }
    }
}

impl Dup for AutoVars {
    fn dup(&self) -> (r: Self) {
        AutoVars {
            target: self.target.dup(),
            first_prereq: self.first_prereq.dup(),
            all_prereqs: self.all_prereqs.dup(),
            all_prereqs_dup: self.all_prereqs_dup.dup(),
            newer_prereqs: self.newer_prereqs.dup(),
            stem: self.stem.dup(),
            order_only: self.order_only.dup(),
        }
    }
}

impl Clone for AutoVars {
    fn clone(&self) -> (r: Self)
        ensures
            r@ == self@,
    {
        self.dup()
    }
}

impl Default for AutoVars {
    fn default() -> (r: Self)
        ensures
            r@ == (AutoView {
                target: seq![],
                first_prereq: seq![],
                all_prereqs: seq![],
                all_prereqs_dup: seq![],
                newer_prereqs: seq![],
                stem: seq![],
                order_only: seq![],
            }),
    {
        AutoVars {
            target: nothing(),
            first_prereq: nothing(),
            all_prereqs: nothing(),
            all_prereqs_dup: nothing(),
            newer_prereqs: nothing(),
            stem: nothing(),
            order_only: nothing(),
        }
    }
}

fn nothing() -> (r: String)
    ensures
        r@ == Seq::<char>::empty(),
{
    let v: Vec<char> = Vec::new();
    string_of(v.as_slice())
}

/// The automatic variable that `$c` stands for, empty where there is none.
pub open spec fn auto_var(auto: Option<AutoView>, c: char) -> Seq<char> {
    match auto {
        None => seq![],
        Some(a) => match c {
            '@' => a.target,
            '<' => a.first_prereq,
            '^' => a.all_prereqs,
            '+' => a.all_prereqs_dup,
            '?' => a.newer_prereqs,
            '*' => a.stem,
            '|' => a.order_only,
            _ => seq![],
        },
    }
}

/// What is known while text is expanded.
pub struct ScopeView {
    pub vars: VarTableView,
    pub auto: Option<AutoView>,
    pub loc: LocView,
    /// Whether `$(eval …)` has its text read in.
    pub evals: bool,
    pub log: Seq<AnswerView>,
}

struct Scope<'a> {
    vars: &'a VarTable,
    auto: Option<&'a AutoVars>,
    loc: &'a Loc,
    evals: bool,
}

/// The view of optional automatic variables.
pub open spec fn auto_view(auto: Option<&AutoVars>) -> Option<AutoView> {
    match auto {
        Some(a) => Some(a@),
        None => None,
    }
}

impl<'a> Scope<'a> {
    spec fn seen(self, log: Seq<AnswerView>) -> ScopeView {
        ScopeView {
            vars: self.vars@,
            auto: auto_view(self.auto),
            loc: self.loc@,
            evals: self.evals,
            log,
        }
    }

    fn auto_single(&self, c: char) -> (r: Vec<char>)
        ensures
            r@ == auto_var(auto_view(self.auto), c),
    {
        match self.auto {
            None => Vec::new(),
            Some(a) => match c {
                '@' => chars_of(a.target.as_str()),
                '<' => chars_of(a.first_prereq.as_str()),
                '^' => chars_of(a.all_prereqs.as_str()),
                '+' => chars_of(a.all_prereqs_dup.as_str()),
                '?' => chars_of(a.newer_prereqs.as_str()),
                '*' => chars_of(a.stem.as_str()),
                '|' => chars_of(a.order_only.as_str()),
                _ => Vec::new(),
            },
        }
    }
}

/// How deep one `call` may stand inside of another: as deep as can be counted, which
/// is deeper than any stack.
pub const MAX_CALLS: usize = usize::MAX;

// ── Reading references ──────────────────────────────────────────────────────

/// Where the bracket closes that is `depth` levels open at position `i`; the end
/// of the text where it does not close.
pub open spec fn closing(s: Seq<char>, i: int, open: char, close: char, depth: int) -> int
    decreases s.len() - i,
{
    if i < 0 || i >= s.len() {
        s.len() as int
    } else if s[i] == open {
        closing(s, i + 1, open, close, depth + 1)
    } else if s[i] == close {
        if depth <= 1 {
            i
        } else {
            closing(s, i + 1, open, close, depth - 1)
        }
    } else {
        closing(s, i + 1, open, close, depth)
    }
}

pub proof fn lemma_closing(s: Seq<char>, i: int, open: char, close: char, depth: int)
    requires
        0 <= i <= s.len(),
    ensures
        i <= closing(s, i, open, close, depth) <= s.len(),
    decreases s.len() - i,
{
    if i < s.len() {
        lemma_closing(s, i + 1, open, close, depth + 1);
        lemma_closing(s, i + 1, open, close, depth - 1);
        lemma_closing(s, i + 1, open, close, depth);
    }
}

fn find_closing(s: &[char], i: usize, open: char, close: char) -> (r: usize)
    requires
        0 < i <= s@.len(),
    ensures
        r == closing(s@, i as int, open, close, 1),
        i <= r <= s@.len(),
{
    let mut depth: usize = 1;
    let mut j: usize = i;
    while j < s.len()
        invariant
            0 < i <= j <= s@.len(),
            1 <= depth <= j - i + 1,
            closing(s@, i as int, open, close, 1) == closing(
                s@,
                j as int,
                open,
                close,
                depth as int,
            ),
        decreases s.len() - j,
    {
        if s[j] == open {
            depth = depth + 1;
        } else if s[j] == close {
            if depth == 1 {
                return j;
            }
            depth = depth - 1;
        }
        j = j + 1;
    }
    j
}

/// How the depth of brackets changes at a character.
pub open spec fn depth_after(depth: nat, c: char) -> nat {
    if c == '(' || c == '{' {
        depth + 1
    } else if (c == ')' || c == '}') && depth > 0 {
        (depth - 1) as nat
    } else {
        depth
    }
}

/// Follows the depth of brackets, which never goes above the number of
/// characters seen.
pub fn next_depth(depth: usize, c: char, seen: usize) -> (r: usize)
    requires
        depth <= seen < usize::MAX,
    ensures
        r == depth_after(depth as nat, c),
        r <= seen + 1,
{
    if c == '(' || c == '{' {
        depth + 1
    } else if (c == ')' || c == '}') && depth > 0 {
        depth - 1
    } else {
        depth
    }
}

/// The parts of `s` between commas outside of brackets; `start` is where the
/// part that goes through `i` begins.
pub open spec fn split_from(s: Seq<char>, start: int, i: int, depth: nat) -> Seq<Seq<char>>
    decreases s.len() - i,
{
    if i < 0 || i >= s.len() {
        seq![s.subrange(start, s.len() as int)]
    } else if s[i] == ',' && depth == 0 {
        seq![s.subrange(start, i)] + split_from(s, i + 1, i + 1, 0)
    } else {
        split_from(s, start, i + 1, depth_after(depth, s[i]))
    }
}

/// The arguments in `s`, as they stand.
pub open spec fn raw_args(s: Seq<char>) -> Seq<Seq<char>> {
    split_from(s, 0, 0, 0)
}

/// Splits arguments, each as it stands.
pub fn split_args(s: &[char]) -> (r: Vec<Vec<char>>)
    ensures
        text::views(r@) == raw_args(s@),
        r@.len() > 0,
{
    broadcast use text::group_views;

    let mut out: Vec<Vec<char>> = Vec::new();
    let mut depth: usize = 0;
    let mut start: usize = 0;
    let mut i: usize = 0;
    proof {
        assert(text::views(out@) + raw_args(s@) =~= raw_args(s@));
    }
    while i < s.len()
        invariant
            start <= i <= s@.len(),
            depth <= i,
            raw_args(s@) == text::views(out@) + split_from(
                s@,
                start as int,
                i as int,
                depth as nat,
            ),
        decreases s.len() - i,
    {
        if s[i] == ',' && depth == 0 {
            let ghost before = text::views(out@);
            out.push(vstd::slice::slice_to_vec(between(s, start, i)));
            proof {
                assert(text::views(out@) + split_from(s@, i + 1, i + 1, 0) =~= before + split_from(
                    s@,
                    start as int,
                    i as int,
                    0,
                ));
            }
            start = i + 1;
        } else {
            depth = next_depth(depth, s[i], i);
        }
        i = i + 1;
    }
    let ghost before = text::views(out@);
    out.push(vstd::slice::slice_to_vec(between(s, start, s.len())));
    proof {
        assert(text::views(out@) =~= before + split_from(
            s@,
            start as int,
            i as int,
            depth as nat,
        ));
    }
    out
}

/// Split args on comma at depth 0.
pub fn split_args_raw(s: &str) -> (r: Vec<String>)
    ensures
        text::views(r@) == raw_args(s@),
{
    let v = chars_of(s);
    strings_of(split_args(v.as_slice()).as_slice())
}

/// Putting the commas back between the arguments gives the text back.
pub proof fn lemma_raw_args_join(s: Seq<char>)
    ensures
        text::join(raw_args(s), ","@) == s,
{
    lemma_split_join(s, 0, 0, 0);
    assert(s.subrange(0, s.len() as int) =~= s);
}

proof fn lemma_split_join(s: Seq<char>, start: int, i: int, depth: nat)
    requires
        0 <= start <= i <= s.len(),
    ensures
        split_from(s, start, i, depth).len() > 0,
        text::join(split_from(s, start, i, depth), ","@) == s.subrange(start, s.len() as int),
    decreases s.len() - i,
{
    if i < s.len() {
        if s[i] == ',' && depth == 0 {
            lemma_split_join(s, i + 1, i + 1, 0);
            let rest = split_from(s, i + 1, i + 1, 0);
            let all = split_from(s, start, i, depth);
            reveal_strlit(",");
            text::lemma_join_first(s.subrange(start, i), rest, ","@);
            assert(s.subrange(start, s.len() as int) =~= s.subrange(start, i) + ","@ + s.subrange(
                i + 1,
                s.len() as int,
            ));
        } else {
            lemma_split_join(s, start, i + 1, depth_after(depth, s[i]));
        }
    }
}

/// Whether a character ends the name of a function.
pub open spec fn ends_name(c: char) -> bool {
    c == ' ' || c == '\t' || c == '\n' || c == '\u{0C}' || c == '\r' || c == ','
}

/// Where the name of a function that goes through `i` ends.
pub open spec fn name_end(s: Seq<char>, i: int) -> int
    decreases s.len() - i,
{
    if 0 <= i < s.len() && !ends_name(s[i]) {
        name_end(s, i + 1)
    } else {
        i
    }
}

fn find_name_end(s: &[char]) -> (r: usize)
    ensures
        r == name_end(s@, 0),
        r <= s@.len(),
{
    let mut i: usize = 0;
    while i < s.len() && !(s[i] == ' ' || s[i] == '\t' || s[i] == '\n' || s[i] == '\u{0C}' || s[i]
        == '\r' || s[i] == ',')
        invariant
            i <= s@.len(),
            name_end(s@, 0) == name_end(s@, i as int),
        decreases s.len() - i,
    {
        i = i + 1;
    }
    i
}

/// The function that a reference calls, if it calls one.
pub open spec fn called(inner: Seq<char>) -> Option<Function> {
    let s = text::trim_start(inner);
    functions::function_named(s.take(name_end(s, 0)))
}

/// The arguments of the call, all together.
pub open spec fn called_with(inner: Seq<char>) -> Seq<char> {
    let s = text::trim_start(inner);
    text::trim_start(s.skip(name_end(s, 0)))
}

/// The length of the longest of some texts.
pub open spec fn longest(parts: Seq<Seq<char>>) -> nat
    decreases parts.len(),
{
    if parts.len() == 0 {
        0
    } else if parts.last().len() > longest(parts.drop_last()) {
        parts.last().len()
    } else {
        longest(parts.drop_last())
    }
}

pub proof fn lemma_longest(parts: Seq<Seq<char>>, j: int)
    requires
        0 <= j < parts.len(),
    ensures
        parts[j].len() <= longest(parts),
    decreases parts.len(),
{
    if j < parts.len() - 1 {
        lemma_longest(parts.drop_last(), j);
    }
}

proof fn lemma_longest_first(first: Seq<char>, rest: Seq<Seq<char>>, n: nat)
    requires
        first.len() <= n,
        longest(rest) <= n,
    ensures
        longest(seq![first] + rest) <= n,
    decreases rest.len(),
{
    let all = seq![first] + rest;
    if rest.len() == 0 {
        assert(all.last() == first);
        assert(all.drop_last().len() == 0);
        assert(longest(all.drop_last()) == 0);
    } else {
        lemma_longest_first(first, rest.drop_last(), n);
        assert(all.last() == rest.last());
        assert(all.drop_last() =~= seq![first] + rest.drop_last());
    }
}

proof fn lemma_split_short(s: Seq<char>, start: int, i: int, depth: nat)
    requires
        0 <= start <= i <= s.len(),
    ensures
        longest(split_from(s, start, i, depth)) <= s.len(),
    decreases s.len() - i,
{
    if i >= s.len() {
        lemma_longest_first(s.subrange(start, s.len() as int), seq![], s.len());
        assert(seq![s.subrange(start, s.len() as int)] + Seq::<Seq<char>>::empty() =~= seq![
            s.subrange(start, s.len() as int),
        ]);
    } else if s[i] == ',' && depth == 0 {
        lemma_split_short(s, i + 1, i + 1, 0);
        lemma_longest_first(s.subrange(start, i), split_from(s, i + 1, i + 1, 0), s.len());
    } else {
        lemma_split_short(s, start, i + 1, depth_after(depth, s[i]));
    }
}

/// No argument is longer than all of them together.
pub proof fn lemma_args_short(raw: Seq<char>)
    ensures
        longest(raw_args(raw)) <= raw.len(),
        forall|j: int| (#[trigger] functions::arg(raw_args(raw), j)).len() <= raw.len(),
{
    lemma_split_short(raw, 0, 0, 0);
    let parts = raw_args(raw);
    assert forall|j: int| (#[trigger] functions::arg(parts, j)).len() <= raw.len() by {
        if 0 <= j < parts.len() {
            lemma_longest(parts, j);
        }
    }
}

proof fn lemma_name_end(s: Seq<char>, i: int)
    requires
        0 <= i <= s.len(),
    ensures
        i <= name_end(s, i) <= s.len(),
    decreases s.len() - i,
{
    if i < s.len() && !ends_name(s[i]) {
        lemma_name_end(s, i + 1);
    }
}

/// The arguments of a call are no longer than the whole reference.
pub proof fn lemma_called_short(inner: Seq<char>)
    ensures
        called_with(inner).len() <= inner.len(),
        longest(raw_args(called_with(inner))) <= inner.len(),
{
    let s = text::trim_start(inner);
    text::lemma_skip_space(inner, 0);
    lemma_name_end(s, 0);
    text::lemma_skip_space(s.skip(name_end(s, 0)), 0);
    lemma_args_short(called_with(inner));
}

/// How many variables are not being expanded.
pub open spec fn unseen(vars: VarTableView, st: Seq<Seq<char>>) -> nat {
    vars.vars.dom().difference(st.to_set()).len()
}

/// Whether `$c` is an automatic variable.
pub open spec fn is_auto(c: char) -> bool {
    c == '@' || c == '<' || c == '^' || c == '+' || c == '?' || c == '*' || c == '|'
}

fn auto_char(c: char) -> (r: bool)
    ensures
        r == is_auto(c),
{
    c == '@' || c == '<' || c == '^' || c == '+' || c == '?' || c == '*' || c == '|'
}

/// Whether a reference is one of the forms `$(@D)` and `$(@F)`.
pub open spec fn is_auto_part(inner: Seq<char>) -> bool {
    inner.len() == 2 && is_auto(inner[0]) && (inner[1] == 'D' || inner[1] == 'F')
}

fn auto_part(inner: &[char]) -> (r: bool)
    ensures
        r == is_auto_part(inner@),
{
    inner.len() == 2 && auto_char(inner[0]) && (inner[1] == 'D' || inner[1] == 'F')
}

// ── What expansion gives ────────────────────────────────────────────────────

/// Whether `$c` stands for the variable of that name.
pub open spec fn is_short_name(c: char) -> bool {
    !is_auto(c)
}

pub open spec fn close_of(open: char) -> char {
    if open == '(' {
        ')'
    } else {
        '}'
    }
}

/// The expansion of `s` from position `i` on. `ov` holds the variables that
/// `foreach` and `call` have set, `st` the variables that are being expanded,
/// and `d` is how much deeper calls may go.
pub open spec fn expanded(
    c: ScopeView,
    s: Seq<char>,
    i: int,
    ov: Map<Seq<char>, Seq<char>>,
    st: Seq<Seq<char>>,
    d: nat,
    k: nat,
) -> Told<Seq<char>>
    decreases d, unseen(c.vars, st), s.len(), 1int, s.len() - i,
    when 0 <= i
    via expanded_decreases
{
    if i >= s.len() {
        Ok((seq![], k))
    } else if s[i] != '$' {
        world::after(seq![s[i]], expanded(c, s, i + 1, ov, st, d, k))
    } else if i + 1 >= s.len() {
        Ok((seq!['$'], k))
    } else if s[i + 1] == '$' {
        world::after(seq!['$'], expanded(c, s, i + 2, ov, st, d, k))
    } else if s[i + 1] == '(' || s[i + 1] == '{' {
        let end = closing(s, i + 2, s[i + 1], close_of(s[i + 1]), 1);
        match reference(c, s.subrange(i + 2, end), ov, st, d, k) {
            Err(e) => Err(e),
            Ok(p) => world::after(p.0, expanded(c, s, behind(s, end), ov, st, d, p.1)),
        }
    } else if is_short_name(s[i + 1]) {
        match reference(c, seq![s[i + 1]], ov, st, d, k) {
            Err(e) => Err(e),
            Ok(p) => world::after(p.0, expanded(c, s, i + 2, ov, st, d, p.1)),
        }
    } else {
        world::after(auto_var(c.auto, s[i + 1]), expanded(c, s, i + 2, ov, st, d, k))
    }
}

/// The position behind a closing bracket, if there is one.
pub open spec fn behind(s: Seq<char>, end: int) -> int {
    if end < s.len() {
        end + 1
    } else {
        end
    }
}

#[via_fn]
proof fn expanded_decreases(
    c: ScopeView,
    s: Seq<char>,
    i: int,
    ov: Map<Seq<char>, Seq<char>>,
    st: Seq<Seq<char>>,
    d: nat,
    k: nat,
) {
    if i + 2 <= s.len() {
        lemma_closing(s, i + 2, s[i + 1], close_of(s[i + 1]), 1);
    }
}

/// The error for calls that are nested too deeply.
pub open spec fn too_deep(loc: LocView) -> ErrorView {
    ErrorView::FatalAt(loc, "calls are nested too deeply"@)
}

/// What the reference `$(inner)` gives: a part of an automatic variable, the
/// result of a function, or the value of a variable.
pub open spec fn reference(
    c: ScopeView,
    inner: Seq<char>,
    ov: Map<Seq<char>, Seq<char>>,
    st: Seq<Seq<char>>,
    d: nat,
    k: nat,
) -> Told<Seq<char>>
    decreases d, unseen(c.vars, st), inner.len(), 4int, 0int,
    via reference_decreases
{
    if is_auto_part(inner) {
        let base = auto_var(c.auto, inner[0]);
        Ok((if inner[1] == 'D' {
            functions::dir(base)
        } else {
            functions::notdir(base)
        }, k))
    } else {
        match called(inner) {
            Some(f) => if functions::is_lazy(f) {
                lazy(c, f, called_with(inner), ov, st, d, k)
            } else {
                match args(c, raw_args(called_with(inner)), 0, ov, st, d, k) {
                    Err(s) => Err(s),
                    Ok(p) => if functions::is_outside(f) {
                        outside::outside(f, p.0, c.loc, c.log, p.1)
                    } else {
                        Ok((functions::plain(f, p.0, c.vars), p.1))
                    },
                }
            },
            None => match expanded(c, inner, 0, ov, st, d, k) {
                Err(s) => Err(s),
                Ok(p) => lookup(c, p.0, ov, st, d, p.1),
            },
        }
    }
}

#[via_fn]
proof fn reference_decreases(
    c: ScopeView,
    inner: Seq<char>,
    ov: Map<Seq<char>, Seq<char>>,
    st: Seq<Seq<char>>,
    d: nat,
    k: nat,
) {
    lemma_called_short(inner);
}

/// The error for a variable whose value leads back to it.
pub open spec fn cycle(loc: LocView, name: Seq<char>) -> ErrorView {
    ErrorView::FatalAt(
        loc,
        "Recursive variable '"@ + name + "' references itself (eventually)"@,
    )
}

/// The value of a variable, expanded where it is not simple. Every table of
/// variables is finite.
pub open spec fn lookup(
    c: ScopeView,
    name: Seq<char>,
    ov: Map<Seq<char>, Seq<char>>,
    st: Seq<Seq<char>>,
    d: nat,
    k: nat,
) -> Told<Seq<char>>
    decreases d, unseen(c.vars, st), 0int, 0int, 0int,
    via lookup_decreases
{
    if ov.dom().contains(name) {
        Ok((ov[name], k))
    } else if st.contains(name) {
        world::failed(cycle(c.loc, name), k)
    } else {
        match c.vars.at(name) {
            None => Ok((seq![], k)),
            Some(v) => if v.flavor == Flavor::Simple || !c.vars.vars.dom().finite() {
                Ok((v.raw, k))
            } else {
                expanded(c, v.raw, 0, ov, st.push(name), d, k)
            },
        }
    }
}

#[via_fn]
proof fn lookup_decreases(
    c: ScopeView,
    name: Seq<char>,
    ov: Map<Seq<char>, Seq<char>>,
    st: Seq<Seq<char>>,
    d: nat,
    k: nat,
) {
    if c.vars.has(name) && !st.contains(name) && c.vars.vars.dom().finite() {
        names::lemma_stack_grows(c.vars.vars.dom(), st, name);
    }
}

/// The expansions of the parts from position `j` on.
pub open spec fn args(
    c: ScopeView,
    parts: Seq<Seq<char>>,
    j: int,
    ov: Map<Seq<char>, Seq<char>>,
    st: Seq<Seq<char>>,
    d: nat,
    k: nat,
) -> Told<Seq<Seq<char>>>
    decreases d, unseen(c.vars, st), longest(parts), 2int, parts.len() - j,
    via args_decreases
{
    if j < 0 || j >= parts.len() {
        Ok((seq![], k))
    } else {
        match expanded(c, parts[j], 0, ov, st, d, k) {
            Err(s) => Err(s),
            Ok(p) => world::after(seq![p.0], args(c, parts, j + 1, ov, st, d, p.1)),
        }
    }
}

#[via_fn]
proof fn args_decreases(
    c: ScopeView,
    parts: Seq<Seq<char>>,
    j: int,
    ov: Map<Seq<char>, Seq<char>>,
    st: Seq<Seq<char>>,
    d: nat,
    k: nat,
) {
    if 0 <= j < parts.len() {
        lemma_longest(parts, j);
    }
}

/// The first of the parts from position `j` on that does not expand to blank.
pub open spec fn first_nonblank(
    c: ScopeView,
    parts: Seq<Seq<char>>,
    j: int,
    ov: Map<Seq<char>, Seq<char>>,
    st: Seq<Seq<char>>,
    d: nat,
    k: nat,
) -> Told<Seq<char>>
    decreases d, unseen(c.vars, st), longest(parts), 2int, parts.len() - j,
    via first_nonblank_decreases
{
    if j < 0 || j >= parts.len() {
        Ok((seq![], k))
    } else {
        match expanded(c, parts[j], 0, ov, st, d, k) {
            Err(s) => Err(s),
            Ok(p) => if text::trim(p.0).len() > 0 {
                Ok(p)
            } else {
                first_nonblank(c, parts, j + 1, ov, st, d, p.1)
            },
        }
    }
}

#[via_fn]
proof fn first_nonblank_decreases(
    c: ScopeView,
    parts: Seq<Seq<char>>,
    j: int,
    ov: Map<Seq<char>, Seq<char>>,
    st: Seq<Seq<char>>,
    d: nat,
    k: nat,
) {
    if 0 <= j < parts.len() {
        lemma_longest(parts, j);
    }
}

/// The expansion of the last part, if none from position `j` on expands to
/// blank; `last` is that of the part before.
pub open spec fn all_nonblank(
    c: ScopeView,
    parts: Seq<Seq<char>>,
    j: int,
    last: Seq<char>,
    ov: Map<Seq<char>, Seq<char>>,
    st: Seq<Seq<char>>,
    d: nat,
    k: nat,
) -> Told<Seq<char>>
    decreases d, unseen(c.vars, st), longest(parts), 2int, parts.len() - j,
    via all_nonblank_decreases
{
    if j < 0 || j >= parts.len() {
        Ok((last, k))
    } else {
        match expanded(c, parts[j], 0, ov, st, d, k) {
            Err(s) => Err(s),
            Ok(p) => if text::trim(p.0).len() == 0 {
                Ok((seq![], p.1))
            } else {
                all_nonblank(c, parts, j + 1, p.0, ov, st, d, p.1)
            },
        }
    }
}

#[via_fn]
proof fn all_nonblank_decreases(
    c: ScopeView,
    parts: Seq<Seq<char>>,
    j: int,
    last: Seq<char>,
    ov: Map<Seq<char>, Seq<char>>,
    st: Seq<Seq<char>>,
    d: nat,
    k: nat,
) {
    if 0 <= j < parts.len() {
        lemma_longest(parts, j);
    }
}

/// The expansions of `body` with `name` set to each of the words from position
/// `j` on.
pub open spec fn each(
    c: ScopeView,
    words: Seq<Seq<char>>,
    j: int,
    name: Seq<char>,
    body: Seq<char>,
    ov: Map<Seq<char>, Seq<char>>,
    st: Seq<Seq<char>>,
    d: nat,
    k: nat,
) -> Told<Seq<Seq<char>>>
    decreases d, unseen(c.vars, st), body.len(), 2int, words.len() - j,
{
    if j < 0 || j >= words.len() {
        Ok((seq![], k))
    } else {
        match expanded(c, body, 0, ov.insert(name, words[j]), st, d, k) {
            Err(s) => Err(s),
            Ok(p) => world::after(seq![p.0], each(c, words, j + 1, name, body, ov, st, d, p.1)),
        }
    }
}

/// `ov` with the first `n` arguments of a call set under their numbers.
pub open spec fn numbered(
    ov: Map<Seq<char>, Seq<char>>,
    args: Seq<Seq<char>>,
    n: int,
) -> Map<Seq<char>, Seq<char>>
    decreases n,
{
    if n <= 0 {
        ov
    } else {
        numbered(ov, args, n - 1).insert(number::decimal(n as nat), args[n - 1])
    }
}

/// The text that a call expands: the raw value of the variable, or what
/// `foreach` or another call has set.
pub open spec fn call_body(
    c: ScopeView,
    name: Seq<char>,
    ov: Map<Seq<char>, Seq<char>>,
) -> Seq<char> {
    if c.vars.has(name) {
        c.vars.vars[name].raw
    } else if ov.dom().contains(name) {
        ov[name]
    } else {
        seq![]
    }
}

/// What a function gives that expands its arguments itself.
pub open spec fn lazy(
    c: ScopeView,
    f: Function,
    raw: Seq<char>,
    ov: Map<Seq<char>, Seq<char>>,
    st: Seq<Seq<char>>,
    d: nat,
    k: nat,
) -> Told<Seq<char>>
    decreases d, unseen(c.vars, st), raw.len(), 3int, 0int,
    via lazy_decreases
{
    let parts = raw_args(raw);
    let p0 = functions::arg(parts, 0);
    let p1 = functions::arg(parts, 1);
    let p2 = functions::arg(parts, 2);
    match f {
        Function::If => match expanded(c, p0, 0, ov, st, d, k) {
            Err(s) => Err(s),
            Ok(p) => if text::trim(p.0).len() > 0 {
                expanded(c, p1, 0, ov, st, d, p.1)
            } else {
                expanded(c, p2, 0, ov, st, d, p.1)
            },
        },
        Function::Or => first_nonblank(c, parts, 0, ov, st, d, k),
        Function::And => all_nonblank(c, parts, 0, seq![], ov, st, d, k),
        Function::Foreach => match expanded(c, p0, 0, ov, st, d, k) {
            Err(s) => Err(s),
            Ok(name) => match expanded(c, p1, 0, ov, st, d, name.1) {
                Err(s) => Err(s),
                Ok(list) => outside::spaced_told(
                    each(c, text::words(list.0), 0, name.0, p2, ov, st, d, list.1),
                ),
            },
        },
        Function::Call => match expanded(c, p0, 0, ov, st, d, k) {
            Err(s) => Err(s),
            Ok(name) => match args(c, parts, 1, ov, st, d, name.1) {
                Err(s) => Err(s),
                Ok(values) => if d == 0 {
                    world::failed(too_deep(c.loc), values.1)
                } else {
                    expanded(
                        c,
                        call_body(c, name.0, ov),
                        0,
                        numbered(ov, values.0, values.0.len() as int).insert("0"@, name.0),
                        st,
                        (d - 1) as nat,
                        values.1,
                    )
                },
            },
        },
        Function::Eval => match expanded(c, raw, 0, ov, st, d, k) {
            Err(s) => Err(s),
            Ok(p) => if c.evals {
                match world::asked(c.log, p.1, QueryView::Eval(p.0)) {
                    Err(s) => Err(s),
                    Ok(a) => match a.0 {
                        AnswerView::Rejected(e) => world::failed(e, a.1),
                        _ => Ok((seq![], a.1)),
                    },
                }
            } else {
                Ok((seq![], p.1))
            },
        },
        _ => Ok((seq![], k)),
    }
}

#[via_fn]
proof fn lazy_decreases(
    c: ScopeView,
    f: Function,
    raw: Seq<char>,
    ov: Map<Seq<char>, Seq<char>>,
    st: Seq<Seq<char>>,
    d: nat,
    k: nat,
) {
    lemma_args_short(raw);
}

/// What a text expands to.
pub open spec fn expansion(
    s: Seq<char>,
    vars: VarTableView,
    auto: Option<AutoView>,
    loc: LocView,
    evals: bool,
    log: Seq<AnswerView>,
    k: nat,
) -> Told<Seq<char>> {
    expanded(
        ScopeView { vars, auto, loc, evals, log },
        s,
        0,
        Map::empty(),
        seq![],
        MAX_CALLS as nat,
        k,
    )
}

// ── Expanding ───────────────────────────────────────────────────────────────

fn expand_text(
    sc: &Scope<'_>,
    s: &[char],
    ov: &NameMap<String>,
    st: &Vec<Vec<char>>,
    d: usize,
    t: &mut Transcript,
) -> (r: Result<Vec<char>, Stop>)
    ensures
        world::tells(
            r,
            *old(t),
            *final(t),
            expanded(
                sc.seen(old(t).log()),
                s@,
                0,
                ov@,
                text::views(st@),
                d as nat,
                old(t).at(),
            ),
        ),
    decreases d, unseen(sc.vars@, text::views(st@)), s@.len(), 1int,
{
    let ghost c = sc.seen(t.log());
    let ghost names = text::views(st@);
    let mut out: Vec<char> = Vec::new();
    let mut i: usize = 0;
    let ghost want = expanded(c, s@, 0, ov@, names, d as nat, t.at());
    proof {
        world::lemma_after_nothing(want);
    }
    while i < s.len()
        invariant
            i <= s@.len(),
            c == sc.seen(t.log()),
            names == text::views(st@),
            t.log() == old(t).log(),
            want == expanded(
                sc.seen(old(t).log()),
                s@,
                0,
                ov@,
                text::views(st@),
                d as nat,
                old(t).at(),
            ),
            want == world::after(
                out@,
                expanded(c, s@, i as int, ov@, names, d as nat, t.at()),
            ),
        decreases s.len() - i,
    {
        let ghost before = out@;
        let ghost here = expanded(c, s@, i as int, ov@, names, d as nat, t.at());
        if s[i] != '$' {
            out.push(s[i]);
            proof {
                assert(out@ =~= before + seq![s@[i as int]]);
                world::lemma_after_after(
                    before,
                    seq![s@[i as int]],
                    expanded(c, s@, i + 1, ov@, names, d as nat, t.at()),
                );
            }
            i = i + 1;
        } else if i + 1 >= s.len() {
            out.push('$');
            proof {
                assert(out@ =~= before + seq!['$']);
                assert(out@ + Seq::<char>::empty() =~= out@);
            }
            i = i + 1;

        } else if s[i + 1] == '$' {
            out.push('$');
            proof {
                assert(out@ =~= before + seq!['$']);
                world::lemma_after_after(
                    before,
                    seq!['$'],
                    expanded(c, s@, i + 2, ov@, names, d as nat, t.at()),
                );
            }
            i = i + 2;
        } else if s[i + 1] == '(' || s[i + 1] == '{' {
            let close = if s[i + 1] == '(' {
                ')'
            } else {
                '}'
            };
            let end = find_closing(s, i + 2, s[i + 1], close);
            let v = expand_reference(sc, between(s, i + 2, end), ov, st, d, t)?;
            append(&mut out, v.as_slice());
            proof {
                world::lemma_after_after(
                    before,
                    v@,
                    expanded(c, s@, behind(s@, end as int), ov@, names, d as nat, t.at()),
                );
            }
            i = if end < s.len() {
                end + 1
            } else {
                end
            };
        } else if !auto_char(s[i + 1]) {
            let name = between(s, i + 1, i + 2);
            assert(name@ =~= seq![s@[i + 1]]);
            let v = expand_reference(sc, name, ov, st, d, t)?;
            append(&mut out, v.as_slice());
            proof {
                world::lemma_after_after(
                    before,
                    v@,
                    expanded(c, s@, i + 2, ov@, names, d as nat, t.at()),
                );
            }
            i = i + 2;
        } else {
            let ch = s[i + 1];
            let v = sc.auto_single(ch);
            append(&mut out, v.as_slice());
            proof {
                world::lemma_after_after(
                    before,
                    auto_var(c.auto, ch),
                    expanded(c, s@, i + 2, ov@, names, d as nat, t.at()),
                );
            }
            i = i + 2;

        }
    }
    proof {
        assert(out@ + Seq::<char>::empty() =~= out@);
    }
    Ok(out)
}

fn expand_reference(
    sc: &Scope<'_>,
    inner: &[char],
    ov: &NameMap<String>,
    st: &Vec<Vec<char>>,
    d: usize,
    t: &mut Transcript,
) -> (r: Result<Vec<char>, Stop>)
    ensures
        world::tells(
            r,
            *old(t),
            *final(t),
            reference(
                sc.seen(old(t).log()),
                inner@,
                ov@,
                text::views(st@),
                d as nat,
                old(t).at(),
            ),
        ),
    decreases d, unseen(sc.vars@, text::views(st@)), inner@.len(), 4int,
{
    // D/F automatic variable variants: @D @F <D <F ^D ^F +D +F ?D ?F *D *F |D |F
    if auto_part(inner) {
        let base = sc.auto_single(inner[0]);
        return Ok(
            if inner[1] == 'D' {
                dir_chars(base.as_slice())
            } else {
                notdir_chars(base.as_slice())
            },
        );
    }
    proof {
        lemma_called_short(inner@);
    }
    let s = trimmed_start(inner);
    let n = find_name_end(s);
    match function_of(upto(s, n)) {
        Some(f) => {
            let raw = trimmed_start(from(s, n));
            match f {
                Function::If
                | Function::Or
                | Function::And
                | Function::Foreach
                | Function::Call
                | Function::Eval => expand_lazy(sc, f, raw, ov, st, d, t),
                _ => {
                    let parts = split_args(raw);
                    let values = expand_args(sc, parts.as_slice(), 0, ov, st, d, t)?;
                    match f {
                        Function::Wildcard
                        | Function::Realpath
                        | Function::Abspath
                        | Function::Shell
                        | Function::Error
                        | Function::Warning
                        | Function::Info => call_outside(f, values.0.as_slice(), sc.loc, t),
                        _ => Ok(call_plain(f, values.0.as_slice(), sc.vars)),
                    }
                },
            }
        },
        None => {
            // Variable reference — expand entire inner to get name
            let name = expand_text(sc, inner, ov, st, d, t)?;
            expand_lookup(sc, name, ov, st, d, t)
        },
    }
}

fn expand_lookup(
    sc: &Scope<'_>,
    name: Vec<char>,
    ov: &NameMap<String>,
    st: &Vec<Vec<char>>,
    d: usize,
    t: &mut Transcript,
) -> (r: Result<Vec<char>, Stop>)
    ensures
        world::tells(
            r,
            *old(t),
            *final(t),
            lookup(
                sc.seen(old(t).log()),
                name@,
                ov@,
                text::views(st@),
                d as nat,
                old(t).at(),
            ),
        ),
    decreases d, unseen(sc.vars@, text::views(st@)), 0int, 0int,
{
    broadcast use text::group_views;

    sc.vars.limited();
    let key = string_of(name.as_slice());
    // Temporary overrides take priority (used by foreach/call)
    if let Some(v) = ov.get(key.as_str()) {
        return Ok(chars_of(v.as_str()));
    }
    if has_word(st.as_slice(), name.as_slice()) {
        let mut msg = chars_of("Recursive variable '");
        append(&mut msg, name.as_slice());
        append_str(&mut msg, "' references itself (eventually)");
        return Err(Stop::Failed(Error::FatalAt(sc.loc.dup(), string_of(msg.as_slice()))));
    }
    match sc.vars.get(key.as_str()) {
        None => Ok(Vec::new()),
        Some(var) => {
            let raw = chars_of(var.raw.as_str());
            match var.flavor {
                Flavor::Simple => Ok(raw),
                _ => {
                    proof {
                        names::lemma_stack_grows(sc.vars@.vars.dom(), text::views(st@), name@);
                    }
                    let mut deeper = text::dup_all(st.as_slice());
                    deeper.push(name);
                    expand_text(sc, raw.as_slice(), ov, &deeper, d, t)
                },
            }
        },
    }
}

fn expand_args(
    sc: &Scope<'_>,
    parts: &[Vec<char>],
    start: usize,
    ov: &NameMap<String>,
    st: &Vec<Vec<char>>,
    d: usize,
    t: &mut Transcript,
) -> (r: Result<Words, Stop>)
    requires
        start <= parts@.len(),
    ensures
        world::tells(
            r,
            *old(t),
            *final(t),
            args(
                sc.seen(old(t).log()),
                text::views(parts@),
                start as int,
                ov@,
                text::views(st@),
                d as nat,
                old(t).at(),
            ),
        ),
    decreases d, unseen(sc.vars@, text::views(st@)), longest(text::views(parts@)), 2int,
{
    broadcast use text::group_views;

    let ghost c = sc.seen(t.log());
    let ghost names = text::views(st@);
    let ghost all = text::views(parts@);
    let ghost want = args(c, all, start as int, ov@, names, d as nat, t.at());
    let mut out: Vec<Vec<char>> = Vec::new();
    let mut j: usize = start;
    proof {
        world::lemma_after_nothing(want);
    }
    while j < parts.len()
        invariant
            start <= j <= parts@.len(),
            c == sc.seen(t.log()),
            names == text::views(st@),
            all == text::views(parts@),
            t.log() == old(t).log(),
            want == args(
                sc.seen(old(t).log()),
                text::views(parts@),
                start as int,
                ov@,
                text::views(st@),
                d as nat,
                old(t).at(),
            ),
            want == world::after(
                text::views(out@),
                args(c, all, j as int, ov@, names, d as nat, t.at()),
            ),
        decreases parts.len() - j,
    {
        let ghost before = text::views(out@);
        assert(all[j as int] == parts@[j as int]@);
        proof {
            lemma_longest(all, j as int);
        }
        let v = expand_text(sc, parts[j].as_slice(), ov, st, d, t)?;
        proof {
            world::lemma_after_after(
                before,
                seq![v@],
                args(c, all, j + 1, ov@, names, d as nat, t.at()),
            );
        }
        out.push(v);
        proof {
            assert(text::views(out@) =~= before + seq![v@]);
        }
        j = j + 1;
    }
    proof {
        assert(text::views(out@) + Seq::<Seq<char>>::empty() =~= text::views(out@));
    }
    Ok(Words(out))
}

fn expand_or(
    sc: &Scope<'_>,
    parts: &[Vec<char>],
    ov: &NameMap<String>,
    st: &Vec<Vec<char>>,
    d: usize,
    t: &mut Transcript,
) -> (r: Result<Vec<char>, Stop>)
    ensures
        world::tells(
            r,
            *old(t),
            *final(t),
            first_nonblank(
                sc.seen(old(t).log()),
                text::views(parts@),
                0,
                ov@,
                text::views(st@),
                d as nat,
                old(t).at(),
            ),
        ),
    decreases d, unseen(sc.vars@, text::views(st@)), longest(text::views(parts@)), 2int,
{
    let ghost c = sc.seen(t.log());
    let ghost names = text::views(st@);
    let ghost all = text::views(parts@);
    let ghost want = first_nonblank(c, all, 0, ov@, names, d as nat, t.at());
    let mut j: usize = 0;
    while j < parts.len()
        invariant
            j <= parts@.len(),
            c == sc.seen(t.log()),
            names == text::views(st@),
            all == text::views(parts@),
            t.log() == old(t).log(),
            want == first_nonblank(
                sc.seen(old(t).log()),
                text::views(parts@),
                0,
                ov@,
                text::views(st@),
                d as nat,
                old(t).at(),
            ),
            want == first_nonblank(c, all, j as int, ov@, names, d as nat, t.at()),
        decreases parts.len() - j,
    {
        assert(all[j as int] == parts@[j as int]@);
        proof {
            lemma_longest(all, j as int);
        }
        let v = expand_text(sc, parts[j].as_slice(), ov, st, d, t)?;
        if trimmed(v.as_slice()).len() > 0 {
            return Ok(v);
        }
        j = j + 1;
    }
    Ok(Vec::new())
}

fn expand_and(
    sc: &Scope<'_>,
    parts: &[Vec<char>],
    ov: &NameMap<String>,
    st: &Vec<Vec<char>>,
    d: usize,
    t: &mut Transcript,
) -> (r: Result<Vec<char>, Stop>)
    ensures
        world::tells(
            r,
            *old(t),
            *final(t),
            all_nonblank(
                sc.seen(old(t).log()),
                text::views(parts@),
                0,
                seq![],
                ov@,
                text::views(st@),
                d as nat,
                old(t).at(),
            ),
        ),
    decreases d, unseen(sc.vars@, text::views(st@)), longest(text::views(parts@)), 2int,
{
    let ghost c = sc.seen(t.log());
    let ghost names = text::views(st@);
    let ghost all = text::views(parts@);
    let ghost want = all_nonblank(c, all, 0, seq![], ov@, names, d as nat, t.at());
    let mut last: Vec<char> = Vec::new();
    let mut j: usize = 0;
    while j < parts.len()
        invariant
            j <= parts@.len(),
            c == sc.seen(t.log()),
            names == text::views(st@),
            all == text::views(parts@),
            t.log() == old(t).log(),
            want == all_nonblank(
                sc.seen(old(t).log()),
                text::views(parts@),
                0,
                seq![],
                ov@,
                text::views(st@),
                d as nat,
                old(t).at(),
            ),
            want == all_nonblank(c, all, j as int, last@, ov@, names, d as nat, t.at()),
        decreases parts.len() - j,
    {
        assert(all[j as int] == parts@[j as int]@);
        proof {
            lemma_longest(all, j as int);
        }
        let v = expand_text(sc, parts[j].as_slice(), ov, st, d, t)?;
        if trimmed(v.as_slice()).len() == 0 {
            return Ok(Vec::new());
        }
        last = v;
        j = j + 1;
    }
    Ok(last)
}

fn expand_each(
    sc: &Scope<'_>,
    words: &[Vec<char>],
    name: &[char],
    body: &[char],
    ov: &NameMap<String>,
    st: &Vec<Vec<char>>,
    d: usize,
    t: &mut Transcript,
) -> (r: Result<Words, Stop>)
    ensures
        world::tells(
            r,
            *old(t),
            *final(t),
            each(
                sc.seen(old(t).log()),
                text::views(words@),
                0,
                name@,
                body@,
                ov@,
                text::views(st@),
                d as nat,
                old(t).at(),
            ),
        ),
    decreases d, unseen(sc.vars@, text::views(st@)), body@.len(), 2int,
{
    broadcast use text::group_views;

    let ghost c = sc.seen(t.log());
    let ghost names = text::views(st@);
    let ghost all = text::views(words@);
    let ghost want = each(c, all, 0, name@, body@, ov@, names, d as nat, t.at());
    let mut out: Vec<Vec<char>> = Vec::new();
    let mut j: usize = 0;
    proof {
        world::lemma_after_nothing(want);
    }
    while j < words.len()
        invariant
            j <= words@.len(),
            c == sc.seen(t.log()),
            names == text::views(st@),
            all == text::views(words@),
            t.log() == old(t).log(),
            want == each(
                sc.seen(old(t).log()),
                text::views(words@),
                0,
                name@,
                body@,
                ov@,
                text::views(st@),
                d as nat,
                old(t).at(),
            ),
            want == world::after(
                text::views(out@),
                each(c, all, j as int, name@, body@, ov@, names, d as nat, t.at()),
            ),
        decreases words.len() - j,
    {
        let ghost before = text::views(out@);
        assert(all[j as int] == words@[j as int]@);
        let mut inner = ov.dup();
        inner.insert(string_of(name), string_of(words[j].as_slice()));
        let v = expand_text(sc, body, &inner, st, d, t)?;
        proof {
            world::lemma_after_after(
                before,
                seq![v@],
                each(c, all, j + 1, name@, body@, ov@, names, d as nat, t.at()),
            );
        }
        out.push(v);
        proof {
            assert(text::views(out@) =~= before + seq![v@]);
        }
        j = j + 1;
    }
    proof {
        assert(text::views(out@) + Seq::<Seq<char>>::empty() =~= text::views(out@));
    }
    Ok(Words(out))
}

fn number_args(ov: &NameMap<String>, values: &[Vec<char>]) -> (r: NameMap<String>)
    ensures
        r@ == numbered(ov@, text::views(values@), values@.len() as int),
{
    let mut inner = ov.dup();
    let mut i: usize = 0;
    while i < values.len()
        invariant
            i <= values@.len(),
            inner@ == numbered(ov@, text::views(values@), i as int),
        decreases values.len() - i,
    {
        let n = decimal_chars(i + 1);
        inner.insert(string_of(n.as_slice()), string_of(values[i].as_slice()));
        i = i + 1;
    }
    inner
}

fn expand_lazy(
    sc: &Scope<'_>,
    f: Function,
    raw: &[char],
    ov: &NameMap<String>,
    st: &Vec<Vec<char>>,
    d: usize,
    t: &mut Transcript,
) -> (r: Result<Vec<char>, Stop>)
    requires
        functions::is_lazy(f),
    ensures
        world::tells(
            r,
            *old(t),
            *final(t),
            lazy(
                sc.seen(old(t).log()),
                f,
                raw@,
                ov@,
                text::views(st@),
                d as nat,
                old(t).at(),
            ),
        ),
    decreases d, unseen(sc.vars@, text::views(st@)), raw@.len(), 3int,
{
    proof {
        lemma_args_short(raw@);
    }
    let parts = split_args(raw);
    let none: Vec<char> = Vec::new();
    let p0 = argument(parts.as_slice(), 0, &none);
    let p1 = argument(parts.as_slice(), 1, &none);
    let p2 = argument(parts.as_slice(), 2, &none);
    match f {
        Function::If => {
            let cond = expand_text(sc, p0, ov, st, d, t)?;
            if trimmed(cond.as_slice()).len() > 0 {
                expand_text(sc, p1, ov, st, d, t)
            } else {
                expand_text(sc, p2, ov, st, d, t)
            }
        },
        Function::Or => expand_or(sc, parts.as_slice(), ov, st, d, t),
        Function::And => expand_and(sc, parts.as_slice(), ov, st, d, t),
        Function::Foreach => {
            let name = expand_text(sc, p0, ov, st, d, t)?;
            let list = expand_text(sc, p1, ov, st, d, t)?;
            let words = split_words(list.as_slice());
            let out = expand_each(sc, words.as_slice(), name.as_slice(), p2, ov, st, d, t)?;
            Ok(join_chars(out.0.as_slice(), " "))
        },
        Function::Call => {
            let name = expand_text(sc, p0, ov, st, d, t)?;
            let values = expand_args(sc, parts.as_slice(), 1, ov, st, d, t)?;
            let mut inner = number_args(ov, values.0.as_slice());
            // Some macros use $(0), the name under which they are called
            inner.insert(owned("0"), string_of(name.as_slice()));
            let key = string_of(name.as_slice());
            let body = match sc.vars.get(key.as_str()) {
                Some(v) => chars_of(v.raw.as_str()),
                None => match ov.get(key.as_str()) {
                    Some(v) => chars_of(v.as_str()),
                    None => Vec::new(),
                },
            };
            if d == 0 {
                let msg = owned("calls are nested too deeply");
                return Err(Stop::Failed(Error::FatalAt(sc.loc.dup(), msg)));
            }
            expand_text(sc, body.as_slice(), &inner, st, d - 1, t)
        },
        _ => {
            let v = expand_text(sc, raw, ov, st, d, t)?;
            if sc.evals {
                match t.ask(Query::Eval(string_of(v.as_slice())))? {
                    Answer::Rejected(e) => Err(Stop::Failed(e)),
                    _ => Ok(Vec::new()),
                }
            } else {
                Ok(Vec::new())
            }
        },
    }
}

/// Expands characters; for use where text is at hand as characters.
pub fn expand_chars(
    s: &[char],
    vars: &VarTable,
    auto: Option<&AutoVars>,
    loc: &Loc,
    t: &mut Transcript,
) -> (r: Result<Vec<char>, Stop>)
    ensures
        world::tells(
            r,
            *old(t),
            *final(t),
            expansion(s@, vars@, auto_view(auto), loc@, false, old(t).log(), old(t).at()),
        ),
{
    broadcast use text::group_views;

    let sc = Scope { vars, auto, loc, evals: false };
    let ov: NameMap<String> = NameMap::new();
    let st: Vec<Vec<char>> = Vec::new();
    expand_text(&sc, s, &ov, &st, MAX_CALLS, t)
}

/// The value of a variable, expanded where it is not simple.
pub(crate) fn expand_value(
    name: &str,
    vars: &VarTable,
    auto: Option<&AutoVars>,
    loc: &Loc,
    t: &mut Transcript,
) -> (r: Result<Vec<char>, Stop>)
    ensures
        world::tells(
            r,
            *old(t),
            *final(t),
            value_of(name@, vars@, auto_view(auto), loc@, false, old(t).log(), old(t).at()),
        ),
{
    broadcast use text::group_views;

    let sc = Scope { vars, auto, loc, evals: false };
    let ov: NameMap<String> = NameMap::new();
    let st: Vec<Vec<char>> = Vec::new();
    expand_lookup(&sc, chars_of(name), &ov, &st, MAX_CALLS, t)
}

/// Expand all `$(…)`, `${…}` and `$X` references in `s`.
pub fn expand(
    s: &str,
    vars: &VarTable,
    auto: Option<&AutoVars>,
    loc: &Loc,
    t: &mut Transcript,
) -> (r: Result<String, Stop>)
    ensures
        world::tells(
            r,
            *old(t),
            *final(t),
            expansion(s@, vars@, auto_view(auto), loc@, false, old(t).log(), old(t).at()),
        ),
{
    let v = chars_of(s);
    let out = expand_chars(v.as_slice(), vars, auto, loc, t)?;
    Ok(string_of(out.as_slice()))
}

/// Same as `expand`, but each `$(eval …)` asks to have its text, already
/// expanded, read in.
pub fn expand_with_eval(
    s: &str,
    vars: &VarTable,
    auto: Option<&AutoVars>,
    loc: &Loc,
    t: &mut Transcript,
) -> (r: Result<String, Stop>)
    ensures
        world::tells(
            r,
            *old(t),
            *final(t),
            expansion(s@, vars@, auto_view(auto), loc@, true, old(t).log(), old(t).at()),
        ),
{
    broadcast use text::group_views;

    let v = chars_of(s);
    let sc = Scope { vars, auto, loc, evals: true };
    let ov: NameMap<String> = NameMap::new();
    let st: Vec<Vec<char>> = Vec::new();
    let out = expand_text(&sc, v.as_slice(), &ov, &st, MAX_CALLS, t)?;
    Ok(string_of(out.as_slice()))
}

// ── Filename helpers ────────────────────────────────────────────────────────

/// The directory part of a name, with its `/`; `./` where it has none.
pub fn dir_of(s: &str) -> (r: String)
    ensures
        r@ == functions::dir(s@),
{
    let v = chars_of(s);
    string_of(dir_chars(v.as_slice()).as_slice())
}

/// A name without its directory part.
pub fn notdir_of(s: &str) -> (r: String)
    ensures
        r@ == functions::notdir(s@),
{
    let v = chars_of(s);
    string_of(notdir_chars(v.as_slice()).as_slice())
}

// ── What holds of expansion ─────────────────────────────────────────────────

/// Whether a text holds no `$`.
pub open spec fn is_plain(s: Seq<char>) -> bool {
    forall|i: int| 0 <= i < s.len() ==> (#[trigger] s[i]) != '$'
}

/// Whether a text, between brackets, names a variable: it is plain, has no
/// brackets, and is neither a call of a function nor a part of an automatic
/// variable.
pub open spec fn is_name(s: Seq<char>) -> bool {
    &&& is_plain(s)
    &&& forall|i: int|
        0 <= i < s.len() ==> s[i] != '(' && s[i] != ')' && s[i] != '{' && (#[trigger] s[i]) != '}'
    &&& called(s) is None
    &&& !is_auto_part(s)
}

proof fn lemma_plain_from(
    c: ScopeView,
    s: Seq<char>,
    i: int,
    n: int,
    ov: Map<Seq<char>, Seq<char>>,
    st: Seq<Seq<char>>,
    d: nat,
    k: nat,
)
    requires
        0 <= i <= n <= s.len(),
        forall|j: int| i <= j < n ==> (#[trigger] s[j]) != '$',
    ensures
        expanded(c, s, i, ov, st, d, k) == world::after(
            s.subrange(i, n),
            expanded(c, s, n, ov, st, d, k),
        ),
    decreases n - i,
{
    if i < n {
        lemma_plain_from(c, s, i + 1, n, ov, st, d, k);
        world::lemma_after_after(
            seq![s[i]],
            s.subrange(i + 1, n),
            expanded(c, s, n, ov, st, d, k),
        );
        assert(seq![s[i]] + s.subrange(i + 1, n) =~= s.subrange(i, n));
    } else {
        assert(s.subrange(i, n) =~= seq![]);
        world::lemma_after_nothing(expanded(c, s, n, ov, st, d, k));
    }
}

proof fn lemma_closing_shift(
    s: Seq<char>,
    t: Seq<char>,
    n: int,
    i: int,
    open: char,
    close: char,
    depth: int,
)
    requires
        0 <= n,
        0 <= i <= t.len(),
        s.len() == n + t.len(),
        s.skip(n) == t,
    ensures
        closing(s, n + i, open, close, depth) == n + closing(t, i, open, close, depth),
    decreases t.len() - i,
{
    if i < t.len() {
        assert(s[n + i] == s.skip(n)[i]);
        lemma_closing_shift(s, t, n, i + 1, open, close, depth + 1);
        lemma_closing_shift(s, t, n, i + 1, open, close, depth - 1);
        lemma_closing_shift(s, t, n, i + 1, open, close, depth);
    }
}

proof fn lemma_expanded_shift(
    c: ScopeView,
    s: Seq<char>,
    t: Seq<char>,
    n: int,
    i: int,
    ov: Map<Seq<char>, Seq<char>>,
    st: Seq<Seq<char>>,
    d: nat,
    k: nat,
)
    requires
        0 <= n,
        0 <= i,
        s.len() == n + t.len(),
        s.skip(n) == t,
    ensures
        expanded(c, s, n + i, ov, st, d, k) == expanded(c, t, i, ov, st, d, k),
    decreases t.len() - i,
{
    if i < t.len() {
        assert(s[n + i] == s.skip(n)[i]);
        if i + 1 < t.len() {
            assert(s[n + i + 1] == s.skip(n)[i + 1]);
        }
        if s[n + i] != '$' {
            lemma_expanded_shift(c, s, t, n, i + 1, ov, st, d, k);
        } else if i + 1 >= t.len() {
        } else if t[i + 1] == '(' || t[i + 1] == '{' {
            let close = close_of(t[i + 1]);
            lemma_closing(t, i + 2, t[i + 1], close, 1);
            lemma_closing_shift(s, t, n, i + 2, t[i + 1], close, 1);
            let end = closing(t, i + 2, t[i + 1], close, 1);
            assert(s.subrange(n + i + 2, n + end) =~= t.subrange(i + 2, end));
            let inner = t.subrange(i + 2, end);
            if let Ok(p) = reference(c, inner, ov, st, d, k) {
                lemma_expanded_shift(c, s, t, n, behind(t, end), ov, st, d, p.1);
            }
        } else if t[i + 1] != '$' && is_short_name(t[i + 1]) {
            if let Ok(p) = reference(c, seq![t[i + 1]], ov, st, d, k) {
                lemma_expanded_shift(c, s, t, n, i + 2, ov, st, d, p.1);
            }
        } else {
            lemma_expanded_shift(c, s, t, n, i + 2, ov, st, d, k);
        }
    }
}

/// Text without `$` stands for itself, also before other text.
pub proof fn lemma_plain_text(
    s: Seq<char>,
    rest: Seq<char>,
    vars: VarTableView,
    auto: Option<AutoView>,
    loc: LocView,
    evals: bool,
    log: Seq<AnswerView>,
    k: nat,
)
    requires
        is_plain(s),
    ensures
        expansion(s + rest, vars, auto, loc, evals, log, k) == world::after(
            s,
            expansion(rest, vars, auto, loc, evals, log, k),
        ),
        expansion(s, vars, auto, loc, evals, log, k) == Ok::<
            (Seq<char>, nat),
            (StopView, nat),
        >((s, k)),
{
    let c = ScopeView { vars, auto, loc, evals, log };
    let ov = Map::<Seq<char>, Seq<char>>::empty();
    let st = Seq::<Seq<char>>::empty();
    let n = s.len() as int;
    let d = MAX_CALLS as nat;
    let all = s + rest;
    assert forall|j: int| 0 <= j < n implies (#[trigger] all[j]) != '$' by {
        assert(all[j] == s[j]);
    }
    lemma_plain_from(c, all, 0, n, ov, st, d, k);
    assert(all.subrange(0, n) =~= s);
    assert(all.skip(n) =~= rest);
    lemma_expanded_shift(c, all, rest, n, 0, ov, st, d, k);
    lemma_plain_from(c, s, 0, n, ov, st, d, k);
    assert(s.subrange(0, n) =~= s);
    assert(s + Seq::<char>::empty() =~= s);
}

/// `$$` stands for `$`.
pub proof fn lemma_dollar(
    rest: Seq<char>,
    vars: VarTableView,
    auto: Option<AutoView>,
    loc: LocView,
    evals: bool,
    log: Seq<AnswerView>,
    k: nat,
)
    ensures
        expansion(seq!['$', '$'] + rest, vars, auto, loc, evals, log, k) == world::after(
            seq!['$'],
            expansion(rest, vars, auto, loc, evals, log, k),
        ),
{
    let c = ScopeView { vars, auto, loc, evals, log };
    let all = seq!['$', '$'] + rest;
    assert(all.skip(2) =~= rest);
    lemma_expanded_shift(
        c,
        all,
        rest,
        2,
        0,
        Map::empty(),
        seq![],
        MAX_CALLS as nat,
        k,
    );
}

proof fn lemma_closing_at(
    s: Seq<char>,
    i: int,
    n: int,
    open: char,
    close: char,
)
    requires
        0 <= i <= n < s.len(),
        s[n] == close,
        open != close,
        forall|j: int| i <= j < n ==> s[j] != open && (#[trigger] s[j]) != close,
    ensures
        closing(s, i, open, close, 1) == n,
    decreases n - i,
{
    if i < n {
        lemma_closing_at(s, i + 1, n, open, close);
    }
}

/// A reference to a name gives the value of that variable.
pub proof fn lemma_reference(
    c: ScopeView,
    name: Seq<char>,
    ov: Map<Seq<char>, Seq<char>>,
    st: Seq<Seq<char>>,
    d: nat,
    k: nat,
)
    requires
        is_name(name),
    ensures
        reference(c, name, ov, st, d, k) == lookup(c, name, ov, st, d, k),
{
    let n = name.len() as int;
    lemma_plain_from(c, name, 0, n, ov, st, d, k);
    assert(name.subrange(0, n) =~= name);
    assert(name + Seq::<char>::empty() =~= name);
}

/// The value of a variable as a reference outside of all others gives it.
pub open spec fn value_of(
    name: Seq<char>,
    vars: VarTableView,
    auto: Option<AutoView>,
    loc: LocView,
    evals: bool,
    log: Seq<AnswerView>,
    k: nat,
) -> Told<Seq<char>> {
    lookup(
        ScopeView { vars, auto, loc, evals, log },
        name,
        Map::empty(),
        seq![],
        MAX_CALLS as nat,
        k,
    )
}

/// A result with what follows it.
pub open spec fn before(
    r: Told<Seq<char>>,
    rest: Seq<char>,
    vars: VarTableView,
    auto: Option<AutoView>,
    loc: LocView,
    evals: bool,
    log: Seq<AnswerView>,
) -> Told<Seq<char>> {
    match r {
        Err(s) => Err(s),
        Ok(p) => world::after(p.0, expansion(rest, vars, auto, loc, evals, log, p.1)),
    }
}

/// `$(NAME)`, `${NAME}` and, where the name has one character, `$N` all stand
/// for the value of the variable, and what follows is expanded for itself.
pub proof fn lemma_variable(
    name: Seq<char>,
    rest: Seq<char>,
    vars: VarTableView,
    auto: Option<AutoView>,
    loc: LocView,
    evals: bool,
    log: Seq<AnswerView>,
    k: nat,
)
    requires
        is_name(name),
    ensures
        expansion(seq!['$', '('] + name + seq![')'] + rest, vars, auto, loc, evals, log, k)
            == before(
            value_of(name, vars, auto, loc, evals, log, k),
            rest,
            vars,
            auto,
            loc,
            evals,
            log,
        ),
        expansion(seq!['$', '{'] + name + seq!['}'] + rest, vars, auto, loc, evals, log, k)
            == before(
            value_of(name, vars, auto, loc, evals, log, k),
            rest,
            vars,
            auto,
            loc,
            evals,
            log,
        ),
        name.len() == 1 && is_short_name(name[0]) ==> expansion(
            seq!['$'] + name + rest,
            vars,
            auto,
            loc,
            evals,
            log,
            k,
        ) == before(
            value_of(name, vars, auto, loc, evals, log, k),
            rest,
            vars,
            auto,
            loc,
            evals,
            log,
        ),
{
    let c = ScopeView { vars, auto, loc, evals, log };
    lemma_bracket(c, name, rest, '(', k);
    lemma_bracket(c, name, rest, '{', k);
    if name.len() == 1 && is_short_name(name[0]) {
        let all = seq!['$'] + name + rest;
        let ov = Map::<Seq<char>, Seq<char>>::empty();
        let d = MAX_CALLS as nat;
        assert(all[1] == name[0]);
        assert(seq![name[0]] =~= name);
        assert(all.skip(2) =~= rest);
        lemma_reference(c, name, ov, seq![], d, k);
        if let Ok(p) = value_of(name, vars, auto, loc, evals, log, k) {
            lemma_expanded_shift(c, all, rest, 2, 0, ov, seq![], d, p.1);
        }
    }
}

proof fn lemma_bracket(c: ScopeView, name: Seq<char>, rest: Seq<char>, open: char, k: nat)
    requires
        is_name(name),
        open == '(' || open == '{',
    ensures
        expansion(
            seq!['$', open] + name + seq![close_of(open)] + rest,
            c.vars,
            c.auto,
            c.loc,
            c.evals,
            c.log,
            k,
        ) == before(
            value_of(name, c.vars, c.auto, c.loc, c.evals, c.log, k),
            rest,
            c.vars,
            c.auto,
            c.loc,
            c.evals,
            c.log,
        ),
{
    let close = close_of(open);
    let all = seq!['$', open] + name + seq![close] + rest;
    let n = name.len() as int;
    let ov = Map::<Seq<char>, Seq<char>>::empty();
    let d = MAX_CALLS as nat;
    assert forall|j: int| 2 <= j < n + 2 implies all[j] != open && (#[trigger] all[j])
        != close by {
        assert(all[j] == name[j - 2]);
    }
    lemma_closing_at(all, 2, n + 2, open, close);
    assert(all.subrange(2, n + 2) =~= name);
    assert(all.skip(n + 3) =~= rest);
    lemma_reference(c, name, ov, seq![], d, k);
    if let Ok(p) = value_of(name, c.vars, c.auto, c.loc, c.evals, c.log, k) {
        lemma_expanded_shift(c, all, rest, n + 3, 0, ov, seq![], d, p.1);
    }
}

/// A variable that is not defined is empty. A simple one has its value as it
/// stands. The value of another is expanded each time, and it may not lead back
/// to the variable.
pub proof fn lemma_value(
    name: Seq<char>,
    vars: VarTableView,
    auto: Option<AutoView>,
    loc: LocView,
    evals: bool,
    log: Seq<AnswerView>,
    k: nat,
)
    requires
        vars.vars.dom().finite(),
    ensures
        !vars.has(name) ==> value_of(name, vars, auto, loc, evals, log, k) == Ok::<
            (Seq<char>, nat),
            (StopView, nat),
        >((seq![], k)),
        vars.has(name) && vars.vars[name].flavor == Flavor::Simple ==> value_of(
            name,
            vars,
            auto,
            loc,
            evals,
            log,
            k,
        ) == Ok::<(Seq<char>, nat), (StopView, nat)>((vars.vars[name].raw, k)),
        vars.has(name) && vars.vars[name].flavor != Flavor::Simple && is_plain(
            vars.vars[name].raw,
        ) ==> value_of(name, vars, auto, loc, evals, log, k) == Ok::<
            (Seq<char>, nat),
            (StopView, nat),
        >((vars.vars[name].raw, k)),
        vars.has(name) && vars.vars[name].flavor != Flavor::Simple && is_name(name)
            && vars.vars[name].raw == seq!['$', '('] + name + seq![')'] ==> value_of(
            name,
            vars,
            auto,
            loc,
            evals,
            log,
            k,
        ) == world::failed::<Seq<char>>(cycle(loc, name), k),
{
    let c = ScopeView { vars, auto, loc, evals, log };
    let ov = Map::<Seq<char>, Seq<char>>::empty();
    let d = MAX_CALLS as nat;
    let st = Seq::<Seq<char>>::empty().push(name);
    if vars.has(name) {
        let raw = vars.vars[name].raw;
        let n = raw.len() as int;
        if is_plain(raw) {
            lemma_plain_from(c, raw, 0, n, ov, st, d, k);
            assert(raw.subrange(0, n) =~= raw);
            assert(raw + Seq::<char>::empty() =~= raw);
        }
        if is_name(name) && raw == seq!['$', '('] + name + seq![')'] {
            assert forall|j: int| 2 <= j < n - 1 implies raw[j] != '(' && (#[trigger] raw[j])
                != ')' by {
                assert(raw[j] == name[j - 2]);
            }
            lemma_closing_at(raw, 2, n - 1, '(', ')');
            assert(raw.subrange(2, n - 1) =~= name);
            lemma_reference(c, name, ov, st, d, k);
            assert(st[0] == name);
            assert(st.contains(name));
        }
    }
}

// ── What references and calls give ──────────────────────────────────────────

/// Arguments are separated by the commas outside of brackets: one that has no such comma
/// in it, and closes its brackets, is followed by those behind its comma.
pub proof fn lemma_raw_args_split(x: Seq<char>, rest: Seq<char>)
    requires
        forall|j: int| 0 <= j < x.len() && #[trigger] x[j] == ',' ==> lines::depth_of(x, j) > 0,
    ensures
        raw_args(x) == seq![x],
        lines::depth_of(x, x.len() as int) == 0 ==> raw_args(x + seq![','] + rest) == seq![x]
            + raw_args(rest),
{
    let n = x.len() as int;
    lemma_split_goes_on(x, x, 0, n);
    assert(x.subrange(0, n) =~= x);
    if lines::depth_of(x, n) == 0 {
        let s = x + seq![','] + rest;
        assert(s[n] == ',');
        lemma_split_goes_on(x, s, 0, n);
        assert(s.subrange(0, n) =~= x);
        lemma_split_shift(s, rest, n + 1, 0, 0, 0);
    }
}

proof fn lemma_split_goes_on(x: Seq<char>, s: Seq<char>, i: int, n: int)
    requires
        0 <= i <= n <= x.len(),
        n <= s.len(),
        forall|j: int| 0 <= j < n ==> s[j] == x[j],
        forall|j: int| 0 <= j < x.len() && #[trigger] x[j] == ',' ==> lines::depth_of(x, j) > 0,
    ensures
        split_from(s, 0, i, lines::depth_of(x, i)) == split_from(s, 0, n, lines::depth_of(x, n)),
    decreases n - i,
{
    if i < n {
        assert(s[i] == x[i]);
        lemma_split_goes_on(x, s, i + 1, n);
    }
}

proof fn lemma_split_shift(s: Seq<char>, t: Seq<char>, n: int, start: int, i: int, depth: nat)
    requires
        0 <= n,
        0 <= start <= i <= t.len(),
        s.len() == n + t.len(),
        forall|j: int| 0 <= j < t.len() ==> s[n + j] == #[trigger] t[j],
    ensures
        split_from(s, n + start, n + i, depth) == split_from(t, start, i, depth),
    decreases t.len() - i,
{
    if i < t.len() {
        assert(s[n + i] == t[i]);
        assert(s.subrange(n + start, n + i) =~= t.subrange(start, i));
        if t[i] == ',' && depth == 0 {
            lemma_split_shift(s, t, n, i + 1, i + 1, 0);
        } else {
            lemma_split_shift(s, t, n, start, i + 1, depth_after(depth, t[i]));
        }
    } else {
        assert(s.subrange(n + start, s.len() as int) =~= t.subrange(start, t.len() as int));
    }
}

/// A reference calls the function whose name stands first in it, and all behind the name
/// are its arguments.
pub proof fn lemma_call_parts(name: Seq<char>, c: char, raw: Seq<char>)
    requires
        name.len() > 0,
        forall|i: int|
            0 <= i < name.len() ==> !text::is_space(#[trigger] name[i]) && name[i] != ',',
        c == ' ' || c == '\t',
    ensures
        called(name + seq![c] + raw) == functions::function_named(name),
        called_with(name + seq![c] + raw) == text::trim_start(raw),
        called(name) == functions::function_named(name),
{
    let s = name + seq![c] + raw;
    let n = name.len() as int;
    assert(s[0] == name[0]);
    assert(text::skip_space(s, 0) == 0);
    assert(s.skip(0) =~= s);
    assert(s[n] == c);
    assert forall|i: int| 0 <= i < n implies s[i] == name[i] by {}
    lemma_name_ends(s, name, 0, n);
    assert(s.take(n) =~= name);
    assert(s.skip(n) =~= seq![c] + raw);
    lines::lemma_trim_blank(c, raw);
    assert(text::skip_space(name, 0) == 0);
    assert(name.skip(0) =~= name);
    lemma_name_ends(name, name, 0, n);
    assert(name.take(n) =~= name);
}

proof fn lemma_name_ends(s: Seq<char>, name: Seq<char>, i: int, n: int)
    requires
        0 <= i <= n <= s.len(),
        n == name.len(),
        forall|j: int| 0 <= j < n ==> s[j] == name[j],
        forall|j: int|
            0 <= j < n ==> !text::is_space(#[trigger] name[j]) && name[j] != ',',
        n == s.len() || ends_name(s[n]),
    ensures
        name_end(s, i) == n,
    decreases n - i,
{
    if i < n {
        assert(s[i] == name[i]);
        assert(!text::is_space(name[i]));
        lemma_name_ends(s, name, i + 1, n);
    }
}

/// The arguments of a function are expanded one after the other, each from the answers
/// that the one before it has left.
pub proof fn lemma_args_in_turn(
    c: ScopeView,
    parts: Seq<Seq<char>>,
    j: int,
    ov: Map<Seq<char>, Seq<char>>,
    st: Seq<Seq<char>>,
    d: nat,
    k: nat,
)
    requires
        0 <= j <= parts.len(),
    ensures
        args(c, parts, j, ov, st, d, k) matches Ok(p) ==> p.0.len() == parts.len() - j && exists|
            at: Seq<nat>,
        | #[trigger]
            expands_each(c, parts, j, ov, st, d, p.0, at) && at[0] == k && at.last() == p.1,
    decreases parts.len() - j,
{
    if j < parts.len() {
        if let Ok(q) = expanded(c, parts[j], 0, ov, st, d, k) {
            lemma_args_in_turn(c, parts, j + 1, ov, st, d, q.1);
            assert(args(c, parts, j, ov, st, d, k) == world::after(
                seq![q.0],
                args(c, parts, j + 1, ov, st, d, q.1),
            ));
            if let Ok(p) = args(c, parts, j + 1, ov, st, d, q.1) {
                let rest = choose|at: Seq<nat>| #[trigger]
                    expands_each(c, parts, j + 1, ov, st, d, p.0, at) && at[0] == q.1
                        && at.last() == p.1;
                let at = seq![k] + rest;
                let all = seq![q.0] + p.0;
                assert forall|n: int| 0 <= n < all.len() implies expanded(
                    c,
                    #[trigger] parts[j + n],
                    0,
                    ov,
                    st,
                    d,
                    at[n],
                ) == Ok::<(Seq<char>, nat), (StopView, nat)>((all[n], at[n + 1])) by {
                    if n > 0 {
                        assert(at[n] == rest[n - 1] && at[n + 1] == rest[n]);
                        assert(all[n] == p.0[n - 1]);
                        assert(parts[j + 1 + (n - 1)] == parts[j + n]);
                    } else {
                        assert(at[1] == rest[0]);
                    }
                }
                assert(expands_each(c, parts, j, ov, st, d, all, at));
                assert(at.last() == rest.last());
                assert(args(c, parts, j, ov, st, d, k) == Ok::<
                    (Seq<Seq<char>>, nat),
                    (StopView, nat),
                >((all, p.1)));
                assert(at[0] == k && at.last() == p.1);
                assert(expands_each(c, parts, j, ov, st, d, args(c, parts, j, ov, st, d, k)->Ok_0.0, at));
            } else {
                assert(args(c, parts, j, ov, st, d, k) is Err);
            }
        } else {
            assert(args(c, parts, j, ov, st, d, k) is Err);
        }
    } else {
        let at = seq![k];
        assert(expands_each(c, parts, j, ov, st, d, seq![], at));
        assert(at.last() == k);
        assert(args(c, parts, j, ov, st, d, k) == Ok::<(Seq<Seq<char>>, nat), (StopView, nat)>(
            (seq![], k),
        ));
        assert(at[0] == k);
        assert(expands_each(c, parts, j, ov, st, d, args(c, parts, j, ov, st, d, k)->Ok_0.0, at));
    }
}

/// Whether some texts are the expansions of the parts from position `j` on; the answers
/// for each begin where `at` says, and end where those for the next begin.
pub open spec fn expands_each(
    c: ScopeView,
    parts: Seq<Seq<char>>,
    j: int,
    ov: Map<Seq<char>, Seq<char>>,
    st: Seq<Seq<char>>,
    d: nat,
    values: Seq<Seq<char>>,
    at: Seq<nat>,
) -> bool {
    &&& at.len() == values.len() + 1
    &&& forall|n: int|
        0 <= n < values.len() ==> expanded(c, #[trigger] parts[j + n], 0, ov, st, d, at[n]) == Ok::<
            (Seq<char>, nat),
            (StopView, nat),
        >((values[n], at[n + 1]))
}

/// A function that needs nothing from outside is given its expanded arguments.
pub proof fn lemma_plain_call(
    c: ScopeView,
    name: Seq<char>,
    raw: Seq<char>,
    ov: Map<Seq<char>, Seq<char>>,
    st: Seq<Seq<char>>,
    d: nat,
    k: nat,
)
    requires
        name.len() > 2,
        forall|i: int|
            0 <= i < name.len() ==> !text::is_space(#[trigger] name[i]) && name[i] != ',',
        functions::function_named(name) matches Some(f) && !functions::is_lazy(f)
            && !functions::is_outside(f),
    ensures
        match args(c, raw_args(text::trim_start(raw)), 0, ov, st, d, k) {
            Ok(p) => reference(c, name + seq![' '] + raw, ov, st, d, k) == Ok::<
                (Seq<char>, nat),
                (StopView, nat),
            >((functions::plain(functions::function_named(name)->Some_0, p.0, c.vars), p.1)),
            Err(e) => reference(c, name + seq![' '] + raw, ov, st, d, k) == Err::<
                (Seq<char>, nat),
                (StopView, nat),
            >(e),
        },
{
    lemma_call_parts(name, ' ', raw);
}

/// `$(if …)` gives its second argument where the first expands to something that is not
/// blank, and the third, or nothing, where it does not; the other is not expanded.
pub proof fn lemma_if(
    c: ScopeView,
    raw: Seq<char>,
    ov: Map<Seq<char>, Seq<char>>,
    st: Seq<Seq<char>>,
    d: nat,
    k: nat,
)
    requires
        raw_args(raw).len() >= 2,
    ensures
        expanded(c, raw_args(raw)[0], 0, ov, st, d, k) matches Ok(p) ==> {
            let parts = raw_args(raw);
            let blank = forall|i: int| 0 <= i < p.0.len() ==> text::is_space(#[trigger] p.0[i]);
            &&& !blank ==> lazy(c, Function::If, raw, ov, st, d, k) == expanded(
                c,
                parts[1],
                0,
                ov,
                st,
                d,
                p.1,
            )
            &&& blank && parts.len() >= 3 ==> lazy(c, Function::If, raw, ov, st, d, k) == expanded(
                c,
                parts[2],
                0,
                ov,
                st,
                d,
                p.1,
            )
            &&& blank && parts.len() == 2 ==> lazy(c, Function::If, raw, ov, st, d, k) == Ok::<
                (Seq<char>, nat),
                (StopView, nat),
            >((seq![], p.1))
        },
{
    if let Ok(p) = expanded(c, raw_args(raw)[0], 0, ov, st, d, k) {
        lemma_blank(p.0);
    }
}

proof fn lemma_blank(s: Seq<char>)
    ensures
        text::trim(s).len() == 0 <==> forall|i: int|
            0 <= i < s.len() ==> text::is_space(#[trigger] s[i]),
{
    text::lemma_trim(s);
    let e = Seq::<char>::empty();
    if forall|i: int| 0 <= i < s.len() ==> text::is_space(#[trigger] s[i]) {
        text::lemma_trim_gives(s, e, e);
        assert(s + e + e =~= s);
    }
    if text::trim(s).len() == 0 {
        let (x, y) = choose|x: Seq<char>, y: Seq<char>| #[trigger]
            text::is_blank(x) && #[trigger] text::is_blank(y) && s == x + text::trim(s) + y;
        assert forall|i: int| 0 <= i < s.len() implies text::is_space(#[trigger] s[i]) by {
            if i < x.len() {
                assert(s[i] == x[i]);
            } else {
                assert(s[i] == y[i - x.len()]);
            }
        }
    }
}

/// `$(or …)` gives the first argument that expands to something not blank, and
/// `$(and …)` the last where none expands to something blank; no argument behind the one
/// that decides is expanded.
pub proof fn lemma_or_and(
    c: ScopeView,
    raw: Seq<char>,
    ov: Map<Seq<char>, Seq<char>>,
    st: Seq<Seq<char>>,
    d: nat,
    k: nat,
    values: Seq<Seq<char>>,
    at: Seq<nat>,
)
    requires
        values.len() <= raw_args(raw).len(),
        values.len() > 0,
        expands_each(c, raw_args(raw), 0, ov, st, d, values, at),
        at[0] == k,
    ensures
        ({
            let n = values.len() - 1;
            let last = !text::is_blank(values[n]);
            &&& last && (forall|i: int| 0 <= i < n ==> text::is_blank(#[trigger] values[i]))
                ==> lazy(c, Function::Or, raw, ov, st, d, k) == Ok::<(Seq<char>, nat), (StopView, nat)>(
                (values[n], at.last()),
            )
            &&& values.len() == raw_args(raw).len() && (forall|i: int|
                0 <= i <= n ==> text::is_blank(#[trigger] values[i])) ==> lazy(
                c,
                Function::Or,
                raw,
                ov,
                st,
                d,
                k,
            ) == Ok::<(Seq<char>, nat), (StopView, nat)>((seq![], at.last()))
            &&& !last && (forall|i: int| 0 <= i < n ==> !text::is_blank(#[trigger] values[i]))
                ==> lazy(c, Function::And, raw, ov, st, d, k) == Ok::<
                (Seq<char>, nat),
                (StopView, nat),
            >((seq![], at.last()))
            &&& values.len() == raw_args(raw).len() && (forall|i: int|
                0 <= i <= n ==> !text::is_blank(#[trigger] values[i])) ==> lazy(
                c,
                Function::And,
                raw,
                ov,
                st,
                d,
                k,
            ) == Ok::<(Seq<char>, nat), (StopView, nat)>((values[n], at.last()))
        }),
{
    let parts = raw_args(raw);
    let n = values.len() - 1;
    if forall|i: int| 0 <= i < n ==> text::is_blank(#[trigger] values[i]) {
        lemma_or_from(c, parts, 0, n, ov, st, d, values, at);
    }
    if forall|i: int| 0 <= i < n ==> !text::is_blank(#[trigger] values[i]) {
        lemma_and_from(c, parts, 0, n, seq![], ov, st, d, values, at);
    }
}

proof fn lemma_or_from(
    c: ScopeView,
    parts: Seq<Seq<char>>,
    j: int,
    n: int,
    ov: Map<Seq<char>, Seq<char>>,
    st: Seq<Seq<char>>,
    d: nat,
    values: Seq<Seq<char>>,
    at: Seq<nat>,
)
    requires
        0 <= j <= n,
        n == values.len() - 1,
        values.len() <= parts.len(),
        expands_each(c, parts, 0, ov, st, d, values, at),
        forall|i: int| 0 <= i < n ==> text::is_blank(#[trigger] values[i]),
    ensures
        !text::is_blank(values[n]) ==> first_nonblank(c, parts, j, ov, st, d, at[j]) == Ok::<
            (Seq<char>, nat),
            (StopView, nat),
        >((values[n], at.last())),
        text::is_blank(values[n]) && values.len() == parts.len() ==> first_nonblank(
            c,
            parts,
            j,
            ov,
            st,
            d,
            at[j],
        ) == Ok::<(Seq<char>, nat), (StopView, nat)>((seq![], at.last())),
    decreases n - j,
{
    assert(expanded(c, parts[0 + j], 0, ov, st, d, at[j]) == Ok::<
        (Seq<char>, nat),
        (StopView, nat),
    >((values[j], at[j + 1])));
    lemma_blank(values[j]);
    if j < n {
        lemma_or_from(c, parts, j + 1, n, ov, st, d, values, at);
    }
}

proof fn lemma_and_from(
    c: ScopeView,
    parts: Seq<Seq<char>>,
    j: int,
    n: int,
    last: Seq<char>,
    ov: Map<Seq<char>, Seq<char>>,
    st: Seq<Seq<char>>,
    d: nat,
    values: Seq<Seq<char>>,
    at: Seq<nat>,
)
    requires
        0 <= j <= n,
        n == values.len() - 1,
        values.len() <= parts.len(),
        expands_each(c, parts, 0, ov, st, d, values, at),
        forall|i: int| 0 <= i < n ==> !text::is_blank(#[trigger] values[i]),
    ensures
        text::is_blank(values[n]) ==> all_nonblank(c, parts, j, last, ov, st, d, at[j]) == Ok::<
            (Seq<char>, nat),
            (StopView, nat),
        >((seq![], at.last())),
        !text::is_blank(values[n]) && values.len() == parts.len() ==> all_nonblank(
            c,
            parts,
            j,
            last,
            ov,
            st,
            d,
            at[j],
        ) == Ok::<(Seq<char>, nat), (StopView, nat)>((values[n], at.last())),
    decreases n - j,
{
    assert(expanded(c, parts[0 + j], 0, ov, st, d, at[j]) == Ok::<
        (Seq<char>, nat),
        (StopView, nat),
    >((values[j], at[j + 1])));
    lemma_blank(values[j]);
    assert(all_nonblank(c, parts, j, last, ov, st, d, at[j]) == (if text::is_blank(values[j]) {
        Ok::<(Seq<char>, nat), (StopView, nat)>((seq![], at[j + 1]))
    } else {
        all_nonblank(c, parts, j + 1, values[j], ov, st, d, at[j + 1])
    }));
    if j + 1 == parts.len() {
        assert(all_nonblank(c, parts, j + 1, values[j], ov, st, d, at[j + 1]) == Ok::<
            (Seq<char>, nat),
            (StopView, nat),
        >((values[j], at[j + 1])));
    }
    if j < n {
        lemma_and_from(c, parts, j + 1, n, values[j], ov, st, d, values, at);
    }
}

/// `$(foreach …)` expands its text once for each word of the list, in order, with the
/// variable set to that word, and puts a space between each two of the results.
pub proof fn lemma_foreach(
    c: ScopeView,
    raw: Seq<char>,
    ov: Map<Seq<char>, Seq<char>>,
    st: Seq<Seq<char>>,
    d: nat,
    k: nat,
)
    requires
        raw_args(raw).len() >= 3,
    ensures
        expanded(c, raw_args(raw)[0], 0, ov, st, d, k) matches Ok(name) ==> (expanded(
            c,
            raw_args(raw)[1],
            0,
            ov,
            st,
            d,
            name.1,
        ) matches Ok(list) ==> (lazy(c, Function::Foreach, raw, ov, st, d, k) matches Ok(p)
            ==> exists|values: Seq<Seq<char>>, at: Seq<nat>| #[trigger]
            expands_for(
                c,
                text::words(list.0),
                0,
                name.0,
                raw_args(raw)[2],
                ov,
                st,
                d,
                values,
                at,
            ) && values.len() == text::words(list.0).len() && at[0] == list.1 && at.last() == p.1
                && p.0 == text::join(values, " "@))),
{
    if let Ok(name) = expanded(c, raw_args(raw)[0], 0, ov, st, d, k) {
        if let Ok(list) = expanded(c, raw_args(raw)[1], 0, ov, st, d, name.1) {
            let words = text::words(list.0);
            let body = raw_args(raw)[2];
            lemma_each_in_turn(c, words, 0, name.0, body, ov, st, d, list.1);
            if let Ok(p) = each(c, words, 0, name.0, body, ov, st, d, list.1) {
                let at = choose|at: Seq<nat>| #[trigger]
                    expands_for(c, words, 0, name.0, body, ov, st, d, p.0, at) && at[0] == list.1
                        && at.last() == p.1;
                assert(expands_for(c, words, 0, name.0, body, ov, st, d, p.0, at));
            }
        }
    }
}

/// Whether some texts are the expansions of `body` with `name` set to each of the words
/// from position `j` on.
pub open spec fn expands_for(
    c: ScopeView,
    words: Seq<Seq<char>>,
    j: int,
    name: Seq<char>,
    body: Seq<char>,
    ov: Map<Seq<char>, Seq<char>>,
    st: Seq<Seq<char>>,
    d: nat,
    values: Seq<Seq<char>>,
    at: Seq<nat>,
) -> bool {
    &&& at.len() == values.len() + 1
    &&& forall|n: int|
        0 <= n < values.len() ==> expanded(
            c,
            body,
            0,
            ov.insert(name, #[trigger] words[j + n]),
            st,
            d,
            at[n],
        ) == Ok::<(Seq<char>, nat), (StopView, nat)>((values[n], at[n + 1]))
}

proof fn lemma_each_in_turn(
    c: ScopeView,
    words: Seq<Seq<char>>,
    j: int,
    name: Seq<char>,
    body: Seq<char>,
    ov: Map<Seq<char>, Seq<char>>,
    st: Seq<Seq<char>>,
    d: nat,
    k: nat,
)
    requires
        0 <= j <= words.len(),
    ensures
        each(c, words, j, name, body, ov, st, d, k) matches Ok(p) ==> p.0.len() == words.len() - j
            && exists|at: Seq<nat>| #[trigger]
            expands_for(c, words, j, name, body, ov, st, d, p.0, at) && at[0] == k && at.last()
                == p.1,
    decreases words.len() - j,
{
    if j < words.len() {
        if let Ok(q) = expanded(c, body, 0, ov.insert(name, words[j]), st, d, k) {
            lemma_each_in_turn(c, words, j + 1, name, body, ov, st, d, q.1);
            assert(each(c, words, j, name, body, ov, st, d, k) == world::after(
                seq![q.0],
                each(c, words, j + 1, name, body, ov, st, d, q.1),
            ));
            if let Ok(p) = each(c, words, j + 1, name, body, ov, st, d, q.1) {
                let rest = choose|at: Seq<nat>| #[trigger]
                    expands_for(c, words, j + 1, name, body, ov, st, d, p.0, at) && at[0] == q.1
                        && at.last() == p.1;
                let at = seq![k] + rest;
                let all = seq![q.0] + p.0;
                assert forall|n: int| 0 <= n < all.len() implies expanded(
                    c,
                    body,
                    0,
                    ov.insert(name, #[trigger] words[j + n]),
                    st,
                    d,
                    at[n],
                ) == Ok::<(Seq<char>, nat), (StopView, nat)>((all[n], at[n + 1])) by {
                    if n > 0 {
                        assert(at[n] == rest[n - 1] && at[n + 1] == rest[n]);
                        assert(all[n] == p.0[n - 1]);
                        assert(words[j + 1 + (n - 1)] == words[j + n]);
                    } else {
                        assert(at[1] == rest[0]);
                    }
                }
                assert(expands_for(c, words, j, name, body, ov, st, d, all, at));
                assert(at.last() == rest.last());
                assert(each(c, words, j, name, body, ov, st, d, k) == Ok::<
                    (Seq<Seq<char>>, nat),
                    (StopView, nat),
                >((all, p.1)));
                assert(at[0] == k && at.last() == p.1);
                assert(expands_for(
                    c,
                    words,
                    j,
                    name,
                    body,
                    ov,
                    st,
                    d,
                    each(c, words, j, name, body, ov, st, d, k)->Ok_0.0,
                    at,
                ));
            } else {
                assert(each(c, words, j, name, body, ov, st, d, k) is Err);
            }
        } else {
            assert(each(c, words, j, name, body, ov, st, d, k) is Err);
        }
    } else {
        let at = seq![k];
        assert(each(c, words, j, name, body, ov, st, d, k) == Ok::<
            (Seq<Seq<char>>, nat),
            (StopView, nat),
        >((seq![], k)));
        assert(expands_for(c, words, j, name, body, ov, st, d, seq![], at));
        assert(at[0] == k && at.last() == k);
        assert(expands_for(
            c,
            words,
            j,
            name,
            body,
            ov,
            st,
            d,
            each(c, words, j, name, body, ov, st, d, k)->Ok_0.0,
            at,
        ));
    }
}

/// `$(call f,…)` expands the value of `f` as it stands, with the expanded arguments under
/// their numbers and the name under 0.
pub proof fn lemma_call(
    c: ScopeView,
    raw: Seq<char>,
    ov: Map<Seq<char>, Seq<char>>,
    st: Seq<Seq<char>>,
    d: nat,
    k: nat,
    i: nat,
)
    requires
        d > 0,
        raw_args(raw).len() >= 1,
    ensures
        expanded(c, raw_args(raw)[0], 0, ov, st, d, k) matches Ok(name) ==> (args(
            c,
            raw_args(raw),
            1,
            ov,
            st,
            d,
            name.1,
        ) matches Ok(values) ==> exists|inner: Map<Seq<char>, Seq<char>>|
            #![trigger inner.dom()]
            {
                &&& inner.dom().contains("0"@) && inner["0"@] == name.0
                &&& 1 <= i <= values.0.len() ==> inner.dom().contains(number::decimal(i))
                    && inner[number::decimal(i)] == values.0[i - 1]
                &&& c.vars.vars.dom().contains(name.0) ==> lazy(
                    c,
                    Function::Call,
                    raw,
                    ov,
                    st,
                    d,
                    k,
                ) == expanded(
                    c,
                    c.vars.vars[name.0].raw,
                    0,
                    inner,
                    st,
                    (d - 1) as nat,
                    values.1,
                )
            }),
{
    if let Ok(name) = expanded(c, raw_args(raw)[0], 0, ov, st, d, k) {
        if let Ok(values) = args(c, raw_args(raw), 1, ov, st, d, name.1) {
            let n = values.0.len() as int;
            let inner = numbered(ov, values.0, n).insert("0"@, name.0);
            assert(inner.dom().contains("0"@));
            if 1 <= i <= n {
                lemma_numbered(ov, values.0, n, i);
                number::lemma_decimal_digits(i);
                number::lemma_decimal_digits(0);
                reveal_strlit("0");
                assert(number::decimal(0) =~= "0"@) by {
                    assert(number::digit(0) == '0');
                }
                assert(number::decimal(i) != "0"@);
            }
        }
    }
}

proof fn lemma_numbered(
    ov: Map<Seq<char>, Seq<char>>,
    values: Seq<Seq<char>>,
    n: int,
    i: nat,
)
    requires
        1 <= i <= n <= values.len(),
    ensures
        numbered(ov, values, n).dom().contains(number::decimal(i)),
        numbered(ov, values, n)[number::decimal(i)] == values[i - 1],
    decreases n,
{
    if i < n {
        lemma_numbered(ov, values, n - 1, i);
        number::lemma_decimal_digits(i);
        number::lemma_decimal_digits(n as nat);
        assert(number::decimal(i) != number::decimal(n as nat));
    }
}

/// What `foreach` and `call` have set comes before the variables of the makefile, and is
/// not expanded again.
pub proof fn lemma_set_for_now(
    c: ScopeView,
    name: Seq<char>,
    ov: Map<Seq<char>, Seq<char>>,
    st: Seq<Seq<char>>,
    d: nat,
    k: nat,
)
    requires
        ov.dom().contains(name),
    ensures
        lookup(c, name, ov, st, d, k) == Ok::<(Seq<char>, nat), (StopView, nat)>((ov[name], k)),
{
}

/// A variable whose value leads back to it is an error that names it; any other is
/// expanded anew at each use, with itself among those that are being expanded.
pub proof fn lemma_lookup(
    c: ScopeView,
    name: Seq<char>,
    ov: Map<Seq<char>, Seq<char>>,
    st: Seq<Seq<char>>,
    d: nat,
    k: nat,
)
    requires
        !ov.dom().contains(name),
        c.vars.vars.dom().finite(),
    ensures
        st.contains(name) ==> lookup(c, name, ov, st, d, k) == Err::<
            (Seq<char>, nat),
            (StopView, nat),
        >(
            (
                StopView::Failed(
                    ErrorView::FatalAt(
                        c.loc,
                        "Recursive variable '"@ + name + "' references itself (eventually)"@,
                    ),
                ),
                k,
            ),
        ),
        !st.contains(name) && !c.vars.vars.dom().contains(name) ==> lookup(c, name, ov, st, d, k)
            == Ok::<(Seq<char>, nat), (StopView, nat)>((seq![], k)),
        !st.contains(name) && c.vars.vars.dom().contains(name) && c.vars.vars[name].flavor is Simple
            ==> lookup(c, name, ov, st, d, k) == Ok::<(Seq<char>, nat), (StopView, nat)>(
            (c.vars.vars[name].raw, k),
        ),
        !st.contains(name) && c.vars.vars.dom().contains(name) && !(
        c.vars.vars[name].flavor is Simple) ==> lookup(c, name, ov, st, d, k) == expanded(
            c,
            c.vars.vars[name].raw,
            0,
            ov,
            st.push(name),
            d,
            k,
        ),
{
}

/// Each of the automatic variables stands for its own part of what is known of the
/// target, and for nothing outside of a recipe.
pub proof fn lemma_automatic(
    a: AutoView,
    rest: Seq<char>,
    vars: VarTableView,
    loc: LocView,
    evals: bool,
    log: Seq<AnswerView>,
    k: nat,
)
    ensures
        ({
            let behind = expansion(rest, vars, Some(a), loc, evals, log, k);
            &&& expansion(seq!['$', '@'] + rest, vars, Some(a), loc, evals, log, k)
                == world::after(a.target, behind)
            &&& expansion(seq!['$', '<'] + rest, vars, Some(a), loc, evals, log, k)
                == world::after(a.first_prereq, behind)
            &&& expansion(seq!['$', '^'] + rest, vars, Some(a), loc, evals, log, k)
                == world::after(a.all_prereqs, behind)
            &&& expansion(seq!['$', '+'] + rest, vars, Some(a), loc, evals, log, k)
                == world::after(a.all_prereqs_dup, behind)
            &&& expansion(seq!['$', '?'] + rest, vars, Some(a), loc, evals, log, k)
                == world::after(a.newer_prereqs, behind)
            &&& expansion(seq!['$', '*'] + rest, vars, Some(a), loc, evals, log, k)
                == world::after(a.stem, behind)
            &&& expansion(seq!['$', '|'] + rest, vars, Some(a), loc, evals, log, k)
                == world::after(a.order_only, behind)
            &&& expansion(seq!['$', '@'] + rest, vars, None, loc, evals, log, k) == expansion(
                rest,
                vars,
                None,
                loc,
                evals,
                log,
                k,
            )
        }),
{
    lemma_auto_first('@', rest, vars, Some(a), loc, evals, log, k);
    lemma_auto_first('<', rest, vars, Some(a), loc, evals, log, k);
    lemma_auto_first('^', rest, vars, Some(a), loc, evals, log, k);
    lemma_auto_first('+', rest, vars, Some(a), loc, evals, log, k);
    lemma_auto_first('?', rest, vars, Some(a), loc, evals, log, k);
    lemma_auto_first('*', rest, vars, Some(a), loc, evals, log, k);
    lemma_auto_first('|', rest, vars, Some(a), loc, evals, log, k);
    lemma_auto_first('@', rest, vars, None, loc, evals, log, k);
    world::lemma_after_nothing(expansion(rest, vars, None, loc, evals, log, k));
}

proof fn lemma_auto_first(
    ch: char,
    rest: Seq<char>,
    vars: VarTableView,
    auto: Option<AutoView>,
    loc: LocView,
    evals: bool,
    log: Seq<AnswerView>,
    k: nat,
)
    requires
        ch == '@' || ch == '<' || ch == '^' || ch == '+' || ch == '?' || ch == '*' || ch == '|',
    ensures
        expansion(seq!['$', ch] + rest, vars, auto, loc, evals, log, k) == world::after(
            auto_var(auto, ch),
            expansion(rest, vars, auto, loc, evals, log, k),
        ),
{
    let c = ScopeView { vars, auto, loc, evals, log };
    let all = seq!['$', ch] + rest;
    assert(all.skip(2) =~= rest);
    lemma_expanded_shift(c, all, rest, 2, 0, Map::empty(), seq![], MAX_CALLS as nat, k);
}

/// `$(@D)` and its like are the directory, and `$(@F)` and its like the rest, of an
/// automatic variable.
pub proof fn lemma_automatic_parts(
    c: ScopeView,
    ch: char,
    ov: Map<Seq<char>, Seq<char>>,
    st: Seq<Seq<char>>,
    d: nat,
    k: nat,
)
    requires
        ch == '@' || ch == '<' || ch == '^' || ch == '+' || ch == '?' || ch == '*' || ch == '|',
    ensures
        reference(c, seq![ch, 'D'], ov, st, d, k) == Ok::<(Seq<char>, nat), (StopView, nat)>(
            (functions::dir(auto_var(c.auto, ch)), k),
        ),
        reference(c, seq![ch, 'F'], ov, st, d, k) == Ok::<(Seq<char>, nat), (StopView, nat)>(
            (functions::notdir(auto_var(c.auto, ch)), k),
        ),
{
}

/// A name that is itself made of references is expanded first: `$($(X))` is the
/// variable that `X` names.
pub proof fn lemma_nested(
    c: ScopeView,
    inner: Seq<char>,
    ov: Map<Seq<char>, Seq<char>>,
    st: Seq<Seq<char>>,
    d: nat,
    k: nat,
)
    requires
        !is_auto_part(inner),
        called(inner) is None,
    ensures
        match expanded(c, inner, 0, ov, st, d, k) {
            Ok(p) => reference(c, inner, ov, st, d, k) == lookup(c, p.0, ov, st, d, p.1),
            Err(e) => reference(c, inner, ov, st, d, k) == Err::<(Seq<char>, nat), (StopView, nat)>(
                e,
            ),
        },
{
}

/// A bracket closes a reference where as many have been closed as opened, and brackets of
/// the other kind do not count.
pub proof fn lemma_closes(inner: Seq<char>, rest: Seq<char>, open: char, i: int, depth: int)
    requires
        open == '(' || open == '{',
        0 <= i <= inner.len(),
        depth >= 1,
        net(inner, open, i, inner.len() as int) == -(depth - 1),
        forall|j: int|
            i <= j <= inner.len() ==> #[trigger] net(inner, open, i, j) > -depth,
    ensures
        closing(inner + seq![close_of(open)] + rest, i, open, close_of(open), depth)
            == inner.len(),
    decreases inner.len() - i,
{
    let s = inner + seq![close_of(open)] + rest;
    if i < inner.len() {
        assert(s[i] == inner[i]);
        let step = net(inner, open, i, i + 1);
        reveal_with_fuel(net, 2);
        assert forall|j: int| i + 1 <= j <= inner.len() implies #[trigger] net(
            inner,
            open,
            i + 1,
            j,
        ) == net(inner, open, i, j) - step by {
            lemma_net_apart(inner, open, i, j);
        }
        assert(net(inner, open, i, i + 1) > -depth);
        assert forall|j: int| i + 1 <= j <= inner.len() implies #[trigger] net(
            inner,
            open,
            i + 1,
            j,
        ) > -(depth + step) by {
            assert(net(inner, open, i, j) > -depth);
        }
        lemma_closes(inner, rest, open, i + 1, depth + step);
    } else {
        assert(s[inner.len() as int] == close_of(open));
        assert(net(inner, open, i, i) == 0);
    }
}

/// By how much more brackets are opened than closed from `i` up to `n`.
pub open spec fn net(s: Seq<char>, open: char, i: int, n: int) -> int
    decreases n - i,
{
    if n <= i || n > s.len() {
        0
    } else {
        net(s, open, i, n - 1) + (if s[n - 1] == open {
            1int
        } else if s[n - 1] == close_of(open) {
            -1
        } else {
            0
        })
    }
}

proof fn lemma_net_apart(s: Seq<char>, open: char, i: int, n: int)
    requires
        0 <= i < n <= s.len(),
    ensures
        net(s, open, i, n) == net(s, open, i, i + 1) + net(s, open, i + 1, n),
    decreases n - i,
{
    if n > i + 1 {
        lemma_net_apart(s, open, i, n - 1);
    } else {
        assert(net(s, open, i + 1, n) == 0);
    }
}

} // verus!
