//! What stands in a line of a makefile.

use vstd::prelude::*;
use crate::search;
use crate::search::{begins_with, between, ends_with, find_char};
use crate::text;
use crate::text::{
    after_word,
    chars_of,
    from,
    is_text,
    split_words,
    string_of,
    trimmed,
    trimmed_start,
    upto,
};
use super::expand;
use super::expand::next_depth;
use super::rule::{Prereq, PrereqView};
use super::var::Flavor;

verus! {

// ── Words at the beginning ──────────────────────────────────────────────────

/// Whether a character is a space or a tab.
pub open spec fn is_blank(c: char) -> bool {
    c == ' ' || c == '\t'
}

/// Whether a line is the word `name`, alone or with a space or a tab behind it.
pub open spec fn is_directive(line: Seq<char>, name: Seq<char>) -> bool {
    search::begins(line, name) && (line.len() == name.len() || is_blank(line[name.len() as int]))
}

/// What stands behind the word `name` at the beginning of a line.
pub open spec fn directive_rest(line: Seq<char>, name: Seq<char>) -> Seq<char> {
    text::trim_start(line.skip(name.len() as int))
}

/// Finds what stands behind a word at the beginning of a line, if it is there.
pub fn strip_directive<'a>(line: &'a [char], name: &str) -> (r: Option<&'a [char]>)
    ensures
        match r {
            Some(s) => is_directive(line@, name@) && s@ == directive_rest(line@, name@),
            None => !is_directive(line@, name@),
        },
{
    if !begins_with(line, name) {
        return None;
    }
    let n = chars_of(name).len();
    if n == line.len() || line[n] == ' ' || line[n] == '\t' {
        Some(trimmed_start(from(line, n)))
    } else {
        None
    }
}

// ── Assignments ─────────────────────────────────────────────────────────────

/// Whether an assignment operator stands at position `i`.
pub open spec fn is_operator(s: Seq<char>, i: int) -> bool {
    s[i] == '=' || ((s[i] == ':' || s[i] == '+' || s[i] == '?') && i + 1 < s.len() && s[i + 1]
        == '=')
}

/// Where the first assignment operator outside of brackets stands, from `i` on.
pub open spec fn operator_at(s: Seq<char>, i: int, depth: nat) -> Option<int>
    decreases s.len() - i,
{
    if i < 0 || i >= s.len() {
        None
    } else if depth == 0 && is_operator(s, i) {
        Some(i)
    } else {
        operator_at(s, i + 1, expand::depth_after(depth, s[i]))
    }
}

/// Whether a line is an assignment: it has a `=`, or an operator with one, before
/// any other `:` outside of brackets.
pub open spec fn assigns(s: Seq<char>, i: int, depth: nat) -> bool
    decreases s.len() - i,
{
    if i < 0 || i >= s.len() {
        false
    } else if depth == 0 && s[i] == '=' {
        true
    } else if depth == 0 && s[i] == ':' {
        i + 1 < s.len() && s[i + 1] == '='
    } else {
        assigns(s, i + 1, expand::depth_after(depth, s[i]))
    }
}

/// The parts of an assignment.
pub struct AssignView {
    pub name: Seq<char>,
    pub flavor: Flavor,
    pub value: Seq<char>,
}

/// The flavor that an operator stands for.
pub open spec fn operator_flavor(c: char) -> Flavor {
    match c {
        ':' => Flavor::Simple,
        '+' => Flavor::Append,
        '?' => Flavor::Conditional,
        _ => Flavor::Recursive,
    }
}

/// The parts of an assignment, with the whitespace around them.
pub open spec fn assignment(s: Seq<char>) -> Option<AssignView> {
    match operator_at(s, 0, 0) {
        None => None,
        Some(p) => Some(
            AssignView {
                name: s.take(p),
                flavor: operator_flavor(s[p]),
                value: if s[p] == '=' {
                    s.skip(p + 1)
                } else {
                    s.skip(p + 2)
                },
            },
        ),
    }
}

/// Tests whether a line is an assignment.
pub fn contains_assign(s: &[char]) -> (r: bool)
    ensures
        r == assigns(s@, 0, 0),
{
    let mut depth: usize = 0;
    let mut i: usize = 0;
    while i < s.len()
        invariant
            i <= s@.len(),
            depth <= i,
            assigns(s@, 0, 0) == assigns(s@, i as int, depth as nat),
        decreases s.len() - i,
    {
        if depth == 0 && s[i] == '=' {
            return true;
        }
        if depth == 0 && s[i] == ':' {
            return i + 1 < s.len() && s[i + 1] == '=';
        }
        depth = next_depth(depth, s[i], i);
        i = i + 1;
    }
    false
}

/// The parts of an assignment, as slices of the line.
pub struct Assign<'a> {
    pub name: &'a [char],
    pub flavor: Flavor,
    pub value: &'a [char],
}

/// Split `NAME = value`, `NAME := value`, `NAME ?= value`, `NAME += value`.
pub fn split_assignment(s: &[char]) -> (r: Option<Assign<'_>>)
    ensures
        match r {
            Some(a) => assignment(s@) == Some(
                AssignView { name: a.name@, flavor: a.flavor, value: a.value@ },
            ),
            None => assignment(s@) is None,
        },
{
    let mut depth: usize = 0;
    let mut i: usize = 0;
    while i < s.len()
        invariant
            i <= s@.len(),
            depth <= i,
            operator_at(s@, 0, 0) == operator_at(s@, i as int, depth as nat),
        decreases s.len() - i,
    {
        if depth == 0 && s[i] == '=' {
            return Some(
                Assign { name: upto(s, i), flavor: Flavor::Recursive, value: from(s, i + 1) },
            );
        }
        if depth == 0 && (s[i] == ':' || s[i] == '+' || s[i] == '?') && i + 1 < s.len() && s[i + 1]
            == '=' {
            let flavor = if s[i] == ':' {
                Flavor::Simple
            } else if s[i] == '+' {
                Flavor::Append
            } else {
                Flavor::Conditional
            };
            return Some(Assign { name: upto(s, i), flavor, value: from(s, i + 2) });
        }
        depth = next_depth(depth, s[i], i);
        i = i + 1;
    }
    None
}

/// A line that is an assignment has the parts of one.
pub proof fn lemma_assigns_splits(s: Seq<char>)
    requires
        assigns(s, 0, 0),
    ensures
        assignment(s) is Some,
{
    lemma_assigns_operator(s, 0, 0);
}

proof fn lemma_assigns_operator(s: Seq<char>, i: int, depth: nat)
    requires
        0 <= i <= s.len(),
        assigns(s, i, depth),
    ensures
        operator_at(s, i, depth) is Some,
    decreases s.len() - i,
{
    if i < s.len() && !(depth == 0 && is_operator(s, i)) {
        lemma_assigns_operator(s, i + 1, expand::depth_after(depth, s[i]));
    }
}

// ── Rules ───────────────────────────────────────────────────────────────────

/// Where the `:` of a rule stands, from `i` on: the first one outside of
/// brackets, unless a `=` comes before it or right behind it.
pub open spec fn rule_colon(s: Seq<char>, i: int, depth: nat) -> Option<int>
    decreases s.len() - i,
{
    if i < 0 || i >= s.len() {
        None
    } else if depth == 0 && s[i] == ':' {
        if i + 1 < s.len() && s[i + 1] == '=' {
            None
        } else {
            Some(i)
        }
    } else if depth == 0 && s[i] == '=' {
        None
    } else {
        rule_colon(s, i + 1, expand::depth_after(depth, s[i]))
    }
}

/// Finds the `:` of a rule.
pub fn find_rule_colon(s: &[char]) -> (r: Option<usize>)
    ensures
        match r {
            Some(p) => p < s@.len() <= usize::MAX && rule_colon(s@, 0, 0) == Some(p as int),
            None => rule_colon(s@, 0, 0) is None,
        },
{
    let mut depth: usize = 0;
    let mut i: usize = 0;
    while i < s.len()
        invariant
            i <= s@.len(),
            depth <= i,
            rule_colon(s@, 0, 0) == rule_colon(s@, i as int, depth as nat),
        decreases s.len() - i,
    {
        if depth == 0 && s[i] == ':' {
            return if i + 1 < s.len() && s[i + 1] == '=' {
                None
            } else {
                Some(i)
            };
        }
        if depth == 0 && s[i] == '=' {
            return None;
        }
        depth = next_depth(depth, s[i], i);
        i = i + 1;
    }
    None
}

/// Where the `:` behind the target pattern of a static pattern rule stands, from
/// `i` on.
pub open spec fn pattern_colon(s: Seq<char>, i: int, depth: nat) -> Option<int>
    decreases s.len() - i,
{
    if i < 0 || i >= s.len() {
        None
    } else if depth == 0 && s[i] == ':' && !(i + 1 < s.len() && s[i + 1] == '=') {
        Some(i)
    } else {
        pattern_colon(s, i + 1, expand::depth_after(depth, s[i]))
    }
}

/// Finds the `:` behind a target pattern.
pub fn find_pattern_colon(s: &[char]) -> (r: Option<usize>)
    ensures
        match r {
            Some(p) => p < s@.len() <= usize::MAX && pattern_colon(s@, 0, 0) == Some(p as int),
            None => pattern_colon(s@, 0, 0) is None,
        },
{
    let mut depth: usize = 0;
    let mut i: usize = 0;
    while i < s.len()
        invariant
            i <= s@.len(),
            depth <= i,
            pattern_colon(s@, 0, 0) == pattern_colon(s@, i as int, depth as nat),
        decreases s.len() - i,
    {
        if depth == 0 && s[i] == ':' && !(i + 1 < s.len() && s[i + 1] == '=') {
            return Some(i);
        }
        depth = next_depth(depth, s[i], i);
        i = i + 1;
    }
    None
}

/// The prerequisites in the first `n` words: those behind a `|` are order-only.
pub open spec fn prereq_list(words: Seq<Seq<char>>, n: int) -> Seq<PrereqView>
    decreases n,
{
    if n <= 0 {
        seq![]
    } else if words[n - 1] == "|"@ {
        prereq_list(words, n - 1)
    } else {
        prereq_list(words, n - 1).push(
            PrereqView { name: words[n - 1], order_only: words.take(n - 1).contains("|"@) },
        )
    }
}

/// The prerequisites in a text.
pub open spec fn prereqs_in(s: Seq<char>) -> Seq<PrereqView> {
    let words = text::words(s);
    prereq_list(words, words.len() as int)
}

/// Reads a list of prerequisites.
pub fn parse_prereqs(s: &[char]) -> (r: Vec<Prereq>)
    ensures
        text::views(r@) == prereqs_in(s@),
{
    broadcast use text::group_views;

    let words = split_words(s);
    let ghost all = text::views(words@);
    let mut out: Vec<Prereq> = Vec::new();
    let mut order_only = false;
    let mut i: usize = 0;
    while i < words.len()
        invariant
            i <= words@.len(),
            all == text::views(words@),
            all == text::words(s@),
            order_only == all.take(i as int).contains("|"@),
            text::views(out@) == prereq_list(all, i as int),
        decreases words.len() - i,
    {
        proof {
            let a = all.take(i as int);
            let b = all.take(i + 1);
            let x = all[i as int];
            assert(b =~= a.push(x));
            assert(b.contains("|"@) == (a.contains("|"@) || x == "|"@)) by {
                if a.contains("|"@) {
                    let k = choose|k: int| 0 <= k < a.len() && a[k] == "|"@;
                    assert(b[k] == "|"@);
                }
                assert(b[i as int] == x);
            }
        }
        if is_text(words[i].as_slice(), "|") {
            order_only = true;
        } else {
            out.push(Prereq { name: string_of(words[i].as_slice()), order_only });
        }
        i = i + 1;
    }
    out
}

// ── Conditions ──────────────────────────────────────────────────────────────

/// Where the first comma outside of brackets stands, from `i` on.
pub open spec fn comma_at(s: Seq<char>, i: int, depth: nat) -> Option<int>
    decreases s.len() - i,
{
    if i < 0 || i >= s.len() {
        None
    } else if depth == 0 && s[i] == ',' {
        Some(i)
    } else {
        comma_at(s, i + 1, expand::depth_after(depth, s[i]))
    }
}

fn find_comma(s: &[char]) -> (r: Option<usize>)
    ensures
        match r {
            Some(p) => p < s@.len() <= usize::MAX && comma_at(s@, 0, 0) == Some(p as int),
            None => comma_at(s@, 0, 0) is None,
        },
{
    let mut depth: usize = 0;
    let mut i: usize = 0;
    while i < s.len()
        invariant
            i <= s@.len(),
            depth <= i,
            comma_at(s@, 0, 0) == comma_at(s@, i as int, depth as nat),
        decreases s.len() - i,
    {
        if depth == 0 && s[i] == ',' {
            return Some(i);
        }
        depth = next_depth(depth, s[i], i);
        i = i + 1;
    }
    None
}

/// The first of some values, and what stands behind it. A value stands between
/// quotes, or is a word.
pub open spec fn unquoted(s: Seq<char>) -> (Seq<char>, Seq<char>) {
    let t = text::trim_start(s);
    if t.len() > 0 && (t[0] == '"' || t[0] == '\'') && t.skip(1).contains(t[0]) {
        let e = t.skip(1).index_of_first(t[0])->Some_0;
        (t.subrange(1, e + 1), t.skip(e + 2))
    } else {
        let e = text::word_end(t, 0);
        (t.take(e), t.skip(e))
    }
}

fn unquote(s: &[char]) -> (r: (&[char], &[char]))
    ensures
        (r.0@, r.1@) == unquoted(s@),
{
    let t = trimmed_start(s);
    if t.len() > 0 && (t[0] == '"' || t[0] == '\'') {
        let rest = from(t, 1);
        proof {
            rest@.index_of_first_ensures(t@[0]);
        }
        if let Some(e) = find_char(rest, t[0]) {
            return (between(t, 1, e + 1), from(t, e + 2));
        }
    }
    let e = after_word(t, 0);
    (upto(t, e), from(t, e))
}

/// The two texts that `ifeq` compares, as they stand: `(A,B)`, or two values one
/// after the other. A `(` that is not closed leaves nothing to compare.
pub open spec fn compared(rest: Seq<char>) -> (Seq<char>, Seq<char>) {
    let s = text::trim(rest);
    if s.len() > 0 && s[0] == '(' {
        match s.index_of_last(')') {
            None => (seq![], seq![]),
            Some(close) => {
                let inner = s.subrange(1, close);
                match comma_at(inner, 0, 0) {
                    Some(i) => (inner.take(i), inner.skip(i + 1)),
                    None => (inner, seq![]),
                }
            },
        }
    } else {
        let a = unquoted(s);
        (a.0, unquoted(text::trim_start(a.1)).0)
    }
}

/// Finds the two texts that `ifeq` compares.
pub fn ifeq_sides(rest: &[char]) -> (r: (Vec<char>, Vec<char>))
    ensures
        (r.0@, r.1@) == compared(rest@),
{
    let s = trimmed(rest);
    if s.len() > 0 && s[0] == '(' {
        proof {
            s@.index_of_last_ensures(')');
        }
        match search::find_last(s, ')') {
            None => (Vec::new(), Vec::new()),
            Some(close) => {
                let inner = between(s, 1, close);
                match find_comma(inner) {
                    Some(i) => (
                        vstd::slice::slice_to_vec(upto(inner, i)),
                        vstd::slice::slice_to_vec(from(inner, i + 1)),
                    ),
                    None => (vstd::slice::slice_to_vec(inner), Vec::new()),
                }
            },
        }
    } else {
        let a = unquote(s);
        let b = unquote(trimmed_start(a.1));
        (vstd::slice::slice_to_vec(a.0), vstd::slice::slice_to_vec(b.0))
    }
}

// ── define ──────────────────────────────────────────────────────────────────

/// The name and the flavor in the header of a `define`, behind whose name any of
/// the operators may stand.
pub open spec fn define_header(rest: Seq<char>) -> (Seq<char>, Flavor) {
    let s = text::trim(rest);
    if search::ends(s, ":="@) {
        (text::trim(s.take(s.len() - ":="@.len())), Flavor::Simple)
    } else if search::ends(s, "+="@) {
        (text::trim(s.take(s.len() - "+="@.len())), Flavor::Append)
    } else if search::ends(s, "?="@) {
        (text::trim(s.take(s.len() - "?="@.len())), Flavor::Conditional)
    } else if search::ends(s, "="@) {
        (text::trim(s.take(s.len() - "="@.len())), Flavor::Recursive)
    } else {
        (s, Flavor::Recursive)
    }
}

/// Reads the header of a `define`.
pub fn parse_define_header(rest: &[char]) -> (r: (Vec<char>, Flavor))
    ensures
        (r.0@, r.1) == define_header(rest@),
{
    let s = trimmed(rest);
    let simple = chars_of(":=");
    let more = chars_of("+=");
    let unset = chars_of("?=");
    let plain = chars_of("=");
    if ends_with(s, simple.as_slice()) {
        (vstd::slice::slice_to_vec(trimmed(upto(s, s.len() - simple.len()))), Flavor::Simple)
    } else if ends_with(s, more.as_slice()) {
        (vstd::slice::slice_to_vec(trimmed(upto(s, s.len() - more.len()))), Flavor::Append)
    } else if ends_with(s, unset.as_slice()) {
        (vstd::slice::slice_to_vec(trimmed(upto(s, s.len() - unset.len()))), Flavor::Conditional)
    } else if ends_with(s, plain.as_slice()) {
        (vstd::slice::slice_to_vec(trimmed(upto(s, s.len() - plain.len()))), Flavor::Recursive)
    } else {
        (vstd::slice::slice_to_vec(s), Flavor::Recursive)
    }
}

/// Whether a line ends a `define`.
pub open spec fn is_endef(line: Seq<char>) -> bool {
    is_directive(text::trim(line), "endef"@)
}

/// Tests whether a line ends a `define`.
pub fn ends_define(line: &[char]) -> (r: bool)
    ensures
        r == is_endef(line@),
{
    strip_directive(trimmed(line), "endef").is_some()
}

/// What an `undefine` names: the text of the name, and whether `override` stands
/// before it.
pub open spec fn undefined(rest: Seq<char>) -> (Seq<char>, bool) {
    let s = text::trim_start(rest);
    if search::begins(s, "override "@) {
        (text::trim(s.skip("override "@.len() as int)), true)
    } else {
        (text::trim(rest), false)
    }
}

/// Reads what an `undefine` names.
pub fn undefine_name(rest: &[char]) -> (r: (&[char], bool))
    ensures
        (r.0@, r.1) == undefined(rest@),
{
    let s = trimmed_start(rest);
    if begins_with(s, "override ") {
        let n = chars_of("override ").len();
        (trimmed(from(s, n)), true)
    } else {
        (trimmed(rest), false)
    }
}

// ── What holds of lines ─────────────────────────────────────────────────────

/// How many brackets are open behind the first `n` characters.
pub open spec fn depth_of(s: Seq<char>, n: int) -> nat
    decreases n,
{
    if n <= 0 || n > s.len() {
        0
    } else {
        let d = depth_of(s, n - 1);
        if s[n - 1] == '(' || s[n - 1] == '{' {
            d + 1
        } else if (s[n - 1] == ')' || s[n - 1] == '}') && d > 0 {
            (d - 1) as nat
        } else {
            d
        }
    }
}

/// A comma separates exactly where no bracket is open, and the first such one does.
pub proof fn lemma_comma(s: Seq<char>, i: int)
    ensures
        comma_at(s, 0, 0) == Some(i) <==> {
            &&& 0 <= i < s.len()
            &&& s[i] == ','
            &&& depth_of(s, i) == 0
            &&& forall|j: int| 0 <= j < i && #[trigger] s[j] == ',' ==> depth_of(s, j) > 0
        },
        comma_at(s, 0, 0) is None <==> forall|j: int|
            0 <= j < s.len() && #[trigger] s[j] == ',' ==> depth_of(s, j) > 0,
{
    lemma_comma_from(s, 0);
}

proof fn lemma_comma_from(s: Seq<char>, n: int)
    requires
        0 <= n <= s.len(),
    ensures
        match comma_at(s, n, depth_of(s, n)) {
            Some(i) => {
                &&& n <= i < s.len()
                &&& s[i] == ','
                &&& depth_of(s, i) == 0
                &&& forall|j: int| n <= j < i && #[trigger] s[j] == ',' ==> depth_of(s, j) > 0
            },
            None => forall|j: int|
                n <= j < s.len() && #[trigger] s[j] == ',' ==> depth_of(s, j) > 0,
        },
    decreases s.len() - n,
{
    if n < s.len() && !(depth_of(s, n) == 0 && s[n] == ',') {
        lemma_comma_from(s, n + 1);
    }
}

/// Whether an assignment operator stands at `i`: `=`, `:=`, `+=` or `?=`.
pub open spec fn sets_at(s: Seq<char>, i: int) -> bool {
    &&& 0 <= i < s.len()
    &&& s[i] == '=' || (i + 1 < s.len() && s[i + 1] == '=' && (s[i] == ':' || s[i] == '+' || s[i]
        == '?'))
}

/// An assignment is split at its first operator outside of brackets, and the operator
/// says of which kind it is.
pub proof fn lemma_assignment_parts(s: Seq<char>, i: int)
    requires
        sets_at(s, i),
        depth_of(s, i) == 0,
        forall|j: int| 0 <= j < i && #[trigger] sets_at(s, j) ==> depth_of(s, j) > 0,
    ensures
        assignment(s) == Some(
            if s[i] == '=' {
                AssignView { name: s.take(i), flavor: Flavor::Recursive, value: s.skip(i + 1) }
            } else if s[i] == ':' {
                AssignView { name: s.take(i), flavor: Flavor::Simple, value: s.skip(i + 2) }
            } else if s[i] == '+' {
                AssignView { name: s.take(i), flavor: Flavor::Append, value: s.skip(i + 2) }
            } else {
                AssignView { name: s.take(i), flavor: Flavor::Conditional, value: s.skip(i + 2) }
            },
        ),
{
    lemma_operator_from(s, 0, i);
}

proof fn lemma_operator_from(s: Seq<char>, n: int, i: int)
    requires
        0 <= n <= i,
        sets_at(s, i),
        depth_of(s, i) == 0,
        forall|j: int| 0 <= j < i && #[trigger] sets_at(s, j) ==> depth_of(s, j) > 0,
    ensures
        operator_at(s, n, depth_of(s, n)) == Some(i),
    decreases i - n,
{
    if n < i {
        assert(sets_at(s, n) ==> depth_of(s, n) > 0);
        lemma_operator_from(s, n + 1, i);
    }
}

/// A line without an operator outside of brackets has no parts of an assignment.
pub proof fn lemma_no_assignment(s: Seq<char>)
    requires
        forall|j: int| #[trigger] sets_at(s, j) ==> depth_of(s, j) > 0,
    ensures
        assignment(s) is None,
{
    lemma_no_operator(s, 0);
}

proof fn lemma_no_operator(s: Seq<char>, n: int)
    requires
        0 <= n <= s.len(),
        forall|j: int| #[trigger] sets_at(s, j) ==> depth_of(s, j) > 0,
    ensures
        operator_at(s, n, depth_of(s, n)) is None,
    decreases s.len() - n,
{
    if n < s.len() {
        assert(sets_at(s, n) ==> depth_of(s, n) > 0);
        lemma_no_operator(s, n + 1);
    }
}

/// Whether the first `:` or `=` outside of brackets stands at `i`.
pub open spec fn first_sign(s: Seq<char>, i: int) -> bool {
    &&& 0 <= i < s.len()
    &&& s[i] == ':' || s[i] == '='
    &&& depth_of(s, i) == 0
    &&& forall|j: int|
        0 <= j < i && (#[trigger] s[j] == ':' || s[j] == '=') ==> depth_of(s, j) > 0
}

/// The first `:` or `=` outside of brackets decides: a `=`, or a `:` with a `=` right
/// behind it, makes the line an assignment; any other `:` makes it a rule, which is
/// split there. A line with neither is neither.
pub proof fn lemma_rule_or_assignment(s: Seq<char>, i: int)
    ensures
        first_sign(s, i) ==> {
            let sets = s[i] == '=' || (i + 1 < s.len() && s[i + 1] == '=');
            &&& assigns(s, 0, 0) == sets
            &&& rule_colon(s, 0, 0) == (if sets {
                None
            } else {
                Some(i)
            })
        },
        (forall|j: int|
            0 <= j < s.len() && (#[trigger] s[j] == ':' || s[j] == '=') ==> depth_of(s, j) > 0)
            ==> !assigns(s, 0, 0) && rule_colon(s, 0, 0) is None,
{
    if first_sign(s, i) {
        lemma_sign_from(s, 0, i);
    }
    if forall|j: int|
        0 <= j < s.len() && (#[trigger] s[j] == ':' || s[j] == '=') ==> depth_of(s, j) > 0 {
        lemma_no_sign(s, 0);
    }
}

proof fn lemma_sign_from(s: Seq<char>, n: int, i: int)
    requires
        0 <= n <= i,
        first_sign(s, i),
    ensures
        assigns(s, n, depth_of(s, n)) == assigns(s, i, 0),
        rule_colon(s, n, depth_of(s, n)) == rule_colon(s, i, 0),
    decreases i - n,
{
    if n < i {
        assert(s[n] == ':' || s[n] == '=' ==> depth_of(s, n) > 0);
        lemma_sign_from(s, n + 1, i);
    }
}

proof fn lemma_no_sign(s: Seq<char>, n: int)
    requires
        0 <= n <= s.len(),
        forall|j: int|
            0 <= j < s.len() && (#[trigger] s[j] == ':' || s[j] == '=') ==> depth_of(s, j) > 0,
    ensures
        !assigns(s, n, depth_of(s, n)),
        rule_colon(s, n, depth_of(s, n)) is None,
    decreases s.len() - n,
{
    if n < s.len() {
        assert(s[n] == ':' || s[n] == '=' ==> depth_of(s, n) > 0);
        lemma_no_sign(s, n + 1);
    }
}

/// Whether a `:` outside of brackets, without a `=` right behind it, stands at `i`.
pub open spec fn colon_at(s: Seq<char>, i: int) -> bool {
    &&& 0 <= i < s.len()
    &&& s[i] == ':'
    &&& !(i + 1 < s.len() && s[i + 1] == '=')
    &&& depth_of(s, i) == 0
}

/// The target pattern of a static pattern rule ends at the first such `:`.
pub proof fn lemma_pattern_colon(s: Seq<char>, i: int)
    ensures
        pattern_colon(s, 0, 0) == Some(i) <==> colon_at(s, i) && forall|j: int|
            0 <= j < i ==> !#[trigger] colon_at(s, j),
        pattern_colon(s, 0, 0) is None <==> forall|j: int| !#[trigger] colon_at(s, j),
{
    lemma_pattern_colon_from(s, 0);
}

proof fn lemma_pattern_colon_from(s: Seq<char>, n: int)
    requires
        0 <= n <= s.len(),
    ensures
        match pattern_colon(s, n, depth_of(s, n)) {
            Some(i) => n <= i && colon_at(s, i) && forall|j: int|
                n <= j < i ==> !#[trigger] colon_at(s, j),
            None => forall|j: int| n <= j ==> !#[trigger] colon_at(s, j),
        },
    decreases s.len() - n,
{
    if n < s.len() && !colon_at(s, n) {
        lemma_pattern_colon_from(s, n + 1);
    }
}

/// A line is a directive where it is the word, or the word with a space or a tab and
/// anything behind it.
pub proof fn lemma_directive(line: Seq<char>, name: Seq<char>, rest: Seq<char>)
    ensures
        is_directive(name, name),
        is_directive(name + seq![' '] + rest, name),
        is_directive(name + seq!['\t'] + rest, name),
        directive_rest(name + seq![' '] + rest, name) == text::trim_start(rest),
        directive_rest(name + seq!['\t'] + rest, name) == text::trim_start(rest),
        is_directive(line, name) ==> line == name || (line.len() > name.len() && line.take(
            name.len() as int,
        ) == name && (line[name.len() as int] == ' ' || line[name.len() as int] == '\t')),
{
    let n = name.len() as int;
    assert(name.subrange(0, n) =~= name);
    let a = name + seq![' '] + rest;
    let b = name + seq!['\t'] + rest;
    assert(a.subrange(0, n) =~= name);
    assert(b.subrange(0, n) =~= name);
    assert(a[n] == ' ');
    assert(b[n] == '\t');
    assert(a.skip(n) =~= seq![' '] + rest);
    assert(b.skip(n) =~= seq!['\t'] + rest);
    lemma_trim_blank(' ', rest);
    lemma_trim_blank('\t', rest);
    if is_directive(line, name) {
        assert(line.subrange(0, n) =~= line.take(n));
        if line.len() == name.len() {
            assert(line =~= line.take(n));
        }
    }
}

/// Whitespace before a text is taken away with what follows it.
pub proof fn lemma_trim_blank(c: char, rest: Seq<char>)
    requires
        text::is_space(c),
    ensures
        text::trim_start(seq![c] + rest) == text::trim_start(rest),
{
    let s = seq![c] + rest;
    assert(s[0] == c);
    text::lemma_skip_space(rest, 0);
    lemma_skip_shift(c, rest, 0);
    let n = text::skip_space(rest, 0);
    assert(text::skip_space(s, 0) == text::skip_space(s, 1));
    assert(s.skip(n + 1) =~= rest.skip(n));
}

proof fn lemma_skip_shift(c: char, rest: Seq<char>, i: int)
    requires
        0 <= i <= rest.len(),
    ensures
        text::skip_space(seq![c] + rest, i + 1) == text::skip_space(rest, i) + 1,
    decreases rest.len() - i,
{
    if i < rest.len() {
        assert((seq![c] + rest)[i + 1] == rest[i]);
        if text::is_space(rest[i]) {
            lemma_skip_shift(c, rest, i + 1);
        }
    }
}

/// Prerequisites before a `|` are normal, those behind it are order-only, each in its
/// place; the `|` is none.
pub proof fn lemma_prereqs(s: Seq<char>, a: Seq<Seq<char>>, b: Seq<Seq<char>>)
    requires
        text::words(s) == a || text::words(s) == a + seq!["|"@] + b,
        forall|i: int| 0 <= i < a.len() ==> #[trigger] a[i] != "|"@,
        forall|i: int| 0 <= i < b.len() ==> #[trigger] b[i] != "|"@,
    ensures
        text::words(s) == a ==> prereqs_in(s).len() == a.len(),
        text::words(s) == a + seq!["|"@] + b ==> prereqs_in(s).len() == a.len() + b.len(),
        forall|i: int|
            0 <= i < a.len() ==> #[trigger] prereqs_in(s)[i] == (PrereqView {
                name: a[i],
                order_only: false,
            }),
        text::words(s) == a + seq!["|"@] + b ==> forall|i: int|
            0 <= i < b.len() ==> #[trigger] prereqs_in(s)[a.len() + i] == (PrereqView {
                name: b[i],
                order_only: true,
            }),
{
    let all = text::words(s);
    if all == a + seq!["|"@] + b {
        lemma_prereq_list(all, a, b, all.len() as int);
    } else {
        lemma_prereq_list(all, a, seq![], all.len() as int);
    }
}

proof fn lemma_prereq_list(
    all: Seq<Seq<char>>,
    a: Seq<Seq<char>>,
    b: Seq<Seq<char>>,
    n: int,
)
    requires
        0 <= n <= all.len(),
        (all == a && b.len() == 0) || all == a + seq!["|"@] + b,
        forall|i: int| 0 <= i < a.len() ==> #[trigger] a[i] != "|"@,
        forall|i: int| 0 <= i < b.len() ==> #[trigger] b[i] != "|"@,
    ensures
        prereq_list(all, n).len() == (if n <= a.len() {
            n
        } else {
            n - 1
        }),
        forall|i: int|
            0 <= i < n && i < a.len() ==> #[trigger] prereq_list(all, n)[i] == (PrereqView {
                name: a[i],
                order_only: false,
            }),
        forall|i: int|
            0 <= i < n - a.len() - 1 ==> #[trigger] prereq_list(all, n)[a.len() + i] == (
            PrereqView { name: b[i], order_only: true }),
    decreases n,
{
    if n > 0 {
        lemma_prereq_list(all, a, b, n - 1);
        let x = all[n - 1];
        let seen = all.take(n - 1);
        if n - 1 < a.len() {
            assert(x == a[n - 1]);
            assert(!seen.contains("|"@)) by {
                if seen.contains("|"@) {
                    let k = choose|k: int| 0 <= k < seen.len() && seen[k] == "|"@;
                    assert(a[k] == "|"@);
                }
            }
        } else if n - 1 > a.len() {
            assert(x == b[n - 2 - a.len()]);
            assert(seen[a.len() as int] == "|"@);
            assert(seen.contains("|"@));
        }
    }
}

/// `ifeq (A,B)` compares what stands between the brackets, on both sides of the first
/// comma outside of inner brackets.
pub proof fn lemma_compared_brackets(a: Seq<char>, b: Seq<char>)
    requires
        forall|j: int| 0 <= j < a.len() && #[trigger] a[j] == ',' ==> depth_of(a, j) > 0,
        depth_of(a, a.len() as int) == 0,
    ensures
        compared(seq!['('] + a + seq![','] + b + seq![')']) == (a, b),
{
    let s = seq!['('] + a + seq![','] + b + seq![')'];
    let n = s.len() as int;
    text::lemma_trim_gives(seq![], s, seq![]);
    assert(Seq::<char>::empty() + s + Seq::<char>::empty() =~= s);
    assert(s[n - 1] == ')');
    assert(s[0] == '(');
    assert(s.last() == ')');
    s.index_of_last_ensures(')');
    assert(s.contains(')'));
    let close = s.index_of_last(')')->Some_0;
    assert(close == n - 1);
    let inner = s.subrange(1, n - 1);
    let m = a.len() as int;
    assert(inner =~= a + seq![','] + b);
    assert forall|j: int| 0 <= j < m implies inner[j] == a[j] by {}
    lemma_depth_prefix(a, inner, m);
    assert forall|j: int| 0 <= j < m && #[trigger] inner[j] == ',' implies depth_of(inner, j)
        > 0 by {
        assert(a[j] == ',');
        lemma_depth_prefix(a, inner, j);
    }
    lemma_comma(inner, m);
    assert(inner.take(m) =~= a);
    assert(inner.skip(m + 1) =~= b);
}

proof fn lemma_depth_prefix(a: Seq<char>, s: Seq<char>, n: int)
    requires
        0 <= n <= a.len(),
        n <= s.len(),
        forall|j: int| 0 <= j < n ==> a[j] == s[j],
    ensures
        depth_of(a, n) == depth_of(s, n),
    decreases n,
{
    if n > 0 {
        lemma_depth_prefix(a, s, n - 1);
    }
}

/// `ifeq "A" "B"`, with either kind of quotes, compares what stands between them.
pub proof fn lemma_compared_quotes(q: char, a: Seq<char>, r: char, b: Seq<char>)
    requires
        q == '"' || q == '\'',
        r == '"' || r == '\'',
        !a.contains(q),
        !b.contains(r),
    ensures
        compared(seq![q] + a + seq![q, ' ', r] + b + seq![r]) == (a, b),
{
    let s = seq![q] + a + seq![q, ' ', r] + b + seq![r];
    text::lemma_trim_gives(seq![], s, seq![]);
    assert(Seq::<char>::empty() + s + Seq::<char>::empty() =~= s);
    assert(s[0] == q);
    assert(s.last() == r);
    let u = seq![r] + b + seq![r];
    lemma_unquoted(q, a, seq![' '] + u);
    assert(s =~= seq![q] + a + seq![q] + (seq![' '] + u));
    lemma_trim_blank(' ', u);
    assert(u[0] == r);
    assert(text::skip_space(u, 0) == 0);
    assert(u.skip(0) =~= u);
    assert(text::trim_start(seq![' '] + u) == u);
    lemma_unquoted(r, b, seq![]);
    assert(u =~= seq![r] + b + seq![r] + Seq::<char>::empty());
}

proof fn lemma_unquoted(q: char, a: Seq<char>, rest: Seq<char>)
    requires
        q == '"' || q == '\'',
        !a.contains(q),
    ensures
        unquoted(seq![q] + a + seq![q] + rest) == (a, rest),
{
    let t = seq![q] + a + seq![q] + rest;
    assert(t[0] == q);
    assert(text::skip_space(t, 0) == 0);
    assert(t.skip(0) =~= t);
    let u = t.skip(1);
    let n = a.len() as int;
    assert(u =~= a + seq![q] + rest);
    assert(u[n] == q);
    assert(u.contains(q));
    u.index_of_first_ensures(q);
    let e = u.index_of_first(q)->Some_0;
    assert(e == n) by {
        if e < n {
            assert(a[e] == q);
        }
    }
    assert(t.subrange(1, n + 1) =~= a);
    assert(t.skip(n + 2) =~= rest);
}

/// An operator behind the name of a `define` says of which kind it is, and is no part
/// of the name.
pub proof fn lemma_define_operator(name: Seq<char>)
    requires
        name.len() > 0,
        !text::is_space(name[0]),
        !text::is_space(name.last()),
    ensures
        define_header(name + seq![' ', ':', '=']) == (name, Flavor::Simple),
        define_header(name + seq![' ', '+', '=']) == (name, Flavor::Append),
        define_header(name + seq![' ', '?', '=']) == (name, Flavor::Conditional),
        define_header(name + seq![' ', '=']) == (name, Flavor::Recursive),
        name.last() != '=' ==> define_header(name) == (name, Flavor::Recursive),
{
    reveal_strlit(":=");
    reveal_strlit("+=");
    reveal_strlit("?=");
    reveal_strlit("=");
    assert(":="@ =~= seq![':', '=']);
    assert("+="@ =~= seq!['+', '=']);
    assert("?="@ =~= seq!['?', '=']);
    assert("="@ =~= seq!['=']);
    lemma_header_with(name, seq![':', '=']);
    lemma_header_with(name, seq!['+', '=']);
    lemma_header_with(name, seq!['?', '=']);
    lemma_header_with(name, seq!['=']);
    assert(name + seq![' ', ':', '='] =~= name + seq![' '] + seq![':', '=']);
    assert(name + seq![' ', '+', '='] =~= name + seq![' '] + seq!['+', '=']);
    assert(name + seq![' ', '?', '='] =~= name + seq![' '] + seq!['?', '=']);
    assert(name + seq![' ', '='] =~= name + seq![' '] + seq!['=']);
    let s = name + seq![' '] + seq!['='];
    let n = name.len() as int;
    assert(s[n] == ' ');
    assert(s.subrange(n, n + 2)[0] == ' ');
    text::lemma_trim_gives(seq![], name, seq![]);
    assert(Seq::<char>::empty() + name + Seq::<char>::empty() =~= name);
    if name.last() != '=' {
        if n >= 2 {
            assert(name.subrange(n - 2, n)[1] == name.last());
        }
        assert(name.subrange(n - 1, n)[0] == name.last());
    }
    let p = name + seq![' '] + seq!['+', '='];
    assert(p.subrange(n + 1, n + 3)[0] == '+');
    let u = name + seq![' '] + seq!['?', '='];
    assert(u.subrange(n + 1, n + 3)[0] == '?');
}

proof fn lemma_header_with(name: Seq<char>, op: Seq<char>)
    requires
        name.len() > 0,
        !text::is_space(name[0]),
        !text::is_space(name.last()),
        op.len() > 0,
        op.last() == '=',
    ensures
        text::trim(name + seq![' '] + op) == name + seq![' '] + op,
        search::ends(name + seq![' '] + op, op),
        text::trim((name + seq![' '] + op).take(name.len() as int + 1)) == name,
{
    let s = name + seq![' '] + op;
    text::lemma_trim_gives(seq![], s, seq![]);
    assert(Seq::<char>::empty() + s + Seq::<char>::empty() =~= s);
    assert(s[0] == name[0]);
    assert(s.last() == '=');
    let n = name.len() as int;
    assert(s.subrange(n + 1, n + 1 + op.len()) =~= op);
    assert(s.take(n + 1) =~= Seq::<char>::empty() + name + seq![' ']);
    text::lemma_trim_gives(seq![], name, seq![' ']);
}

} // verus!
