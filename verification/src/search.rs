//! Finding and replacing text.

use vstd::prelude::*;
use vstd::slice::slice_subrange;
use crate::text;
use crate::text::{append, chars_of};

verus! {

/// Finds the first occurrence of a character.
pub fn find_char(s: &[char], c: char) -> (r: Option<usize>)
    ensures
        match r {
            Some(i) => i < s@.len() <= usize::MAX && s@.index_of_first(c) == Some(i as int),
            None => s@.index_of_first(c) is None,
        },
{
    proof {
        s@.index_of_first_ensures(c);
    }
    let mut i: usize = 0;
    while i < s.len()
        invariant
            i <= s.len(),
            forall|j: int| 0 <= j < i ==> s@[j] != c,
            match s@.index_of_first(c) {
                Some(index) => 0 <= index < s@.len() && s@[index] == c && (forall|j: int|
                    0 <= j < index < s@.len() ==> s@[j] != c),
                None => !s@.contains(c),
            },
        decreases s.len() - i,
    {
        if s[i] == c {
            proof {
                assert(s@.contains(c));
            }
            return Some(i);
        }
        i = i + 1;
    }
    None
}

/// Finds the last occurrence of a character.
pub fn find_last(s: &[char], c: char) -> (r: Option<usize>)
    ensures
        match r {
            Some(i) => i < s@.len() <= usize::MAX && s@.index_of_last(c) == Some(i as int),
            None => s@.index_of_last(c) is None,
        },
{
    proof {
        s@.index_of_last_ensures(c);
    }
    let mut i: usize = s.len();
    while i > 0
        invariant
            i <= s.len(),
            forall|j: int| i <= j < s.len() ==> s@[j] != c,
            match s@.index_of_last(c) {
                Some(index) => 0 <= index < s@.len() && s@[index] == c && (forall|j: int|
                    0 <= index < j < s@.len() ==> s@[j] != c),
                None => !s@.contains(c),
            },
        decreases i,
    {
        i = i - 1;
        if s[i] == c {
            proof {
                assert(s@.contains(c));
            }
            return Some(i);
        }
    }
    None
}

/// Whether a character occurs.
pub fn has_char(s: &[char], c: char) -> (r: bool)
    ensures
        r == s@.contains(c),
{
    let f = find_char(s, c);
    proof {
        s@.index_of_first_ensures(c);
    }
    f.is_some()
}

/// Whether `p` stands in `s` at position `i`.
pub open spec fn stands_at(s: Seq<char>, p: Seq<char>, i: int) -> bool {
    0 <= i && i + p.len() <= s.len() && s.subrange(i, i + p.len()) == p
}

/// Tests whether `p` stands in `s` at position `i`.
pub fn at(s: &[char], p: &[char], i: usize) -> (r: bool)
    requires
        i <= s@.len(),
    ensures
        r == stands_at(s@, p@, i as int),
{
    if s.len() - i < p.len() {
        return false;
    }
    let mut j: usize = 0;
    while j < p.len()
        invariant
            i + p.len() <= s.len(),
            j <= p.len(),
            forall|n: int| 0 <= n < j ==> s@[i + n] == p@[n],
        decreases p.len() - j,
    {
        if s[i + j] != p[j] {
            proof {
                assert(s@.subrange(i as int, i + p@.len())[j as int] == s@[i + j]);
            }
            return false;
        }
        j = j + 1;
    }
    proof {
        assert(s@.subrange(i as int, i + p@.len()) =~= p@);
    }
    true
}

/// Whether `s` begins with `p`.
pub open spec fn begins(s: Seq<char>, p: Seq<char>) -> bool {
    stands_at(s, p, 0)
}

/// Whether `s` ends with `p`.
pub open spec fn ends(s: Seq<char>, p: Seq<char>) -> bool {
    p.len() <= s.len() && stands_at(s, p, s.len() - p.len())
}

/// Tests a prefix.
pub fn begins_with(s: &[char], p: &str) -> (r: bool)
    ensures
        r == begins(s@, p@),
{
    let v = chars_of(p);
    at(s, v.as_slice(), 0)
}

/// Tests a suffix.
pub fn ends_with(s: &[char], p: &[char]) -> (r: bool)
    ensures
        r == ends(s@, p@),
{
    if p.len() > s.len() {
        return false;
    }
    at(s, p, s.len() - p.len())
}

/// Whether `p` occurs anywhere in `s`.
pub open spec fn occurs(s: Seq<char>, p: Seq<char>) -> bool {
    exists|i: int| stands_at(s, p, i)
}

/// Tests whether `p` occurs anywhere in `s`.
pub fn has_text(s: &[char], p: &[char]) -> (r: bool)
    ensures
        r == occurs(s@, p@),
{
    let mut i: usize = 0;
    while i < s.len()
        invariant
            i <= s.len(),
            forall|j: int| 0 <= j < i ==> !stands_at(s@, p@, j),
        decreases s.len() - i,
    {
        if at(s, p, i) {
            return true;
        }
        i = i + 1;
    }
    at(s, p, i)
}

/// `s` from position `i` on, with each occurrence of `from` (taken from left to
/// right, none overlapping another) replaced by `to`.
pub open spec fn replaced(s: Seq<char>, i: int, from: Seq<char>, to: Seq<char>) -> Seq<char>
    decreases s.len() - i,
{
    if i < 0 || i >= s.len() {
        seq![]
    } else if from.len() > 0 && stands_at(s, from, i) {
        to + replaced(s, i + from.len(), from, to)
    } else {
        seq![s[i]] + replaced(s, i + 1, from, to)
    }
}

/// Replaces every occurrence of `from`, which is not empty, by `to`.
pub fn replace(s: &[char], from: &[char], to: &[char]) -> (r: Vec<char>)
    ensures
        r@ == replaced(s@, 0, from@, to@),
{
    let mut out: Vec<char> = Vec::new();
    let mut i: usize = 0;
    proof {
        assert(out@ + replaced(s@, 0, from@, to@) =~= replaced(s@, 0, from@, to@));
    }
    while i < s.len()
        invariant
            i <= s.len(),
            replaced(s@, 0, from@, to@) == out@ + replaced(s@, i as int, from@, to@),
        decreases s.len() - i,
    {
        let ghost before = out@;
        let ghost rest = replaced(s@, i as int, from@, to@);
        if from.len() > 0 && at(s, from, i) {
            append(&mut out, to);
            proof {
                assert(out@ + replaced(s@, i + from@.len(), from@, to@) =~= before + rest);
            }
            i = i + from.len();
        } else {
            out.push(s[i]);
            proof {
                assert(out@ + replaced(s@, i + 1, from@, to@) =~= before + rest);
            }
            i = i + 1;
        }
    }
    proof {
        assert(out@ + replaced(s@, i as int, from@, to@) =~= out@);
    }
    out
}

/// The part of a slice between two positions.
pub fn between(s: &[char], a: usize, b: usize) -> (r: &[char])
    requires
        a <= b <= s@.len(),
    ensures
        r@ == s@.subrange(a as int, b as int),
{
    slice_subrange(s, a, b)
}

/// The parts of `s` between the occurrences of `c`.
pub open spec fn split(s: Seq<char>, c: char) -> Seq<Seq<char>>
    decreases s.len(),
    via split_decreases
{
    match s.index_of_first(c) {
        None => seq![s],
        Some(i) => seq![s.take(i)] + split(s.skip(i + 1), c),
    }
}

#[via_fn]
proof fn split_decreases(s: Seq<char>, c: char) {
    s.index_of_first_ensures(c);
}

/// Splits text at each occurrence of a character.
pub fn split_at(s: &[char], c: char) -> (r: Vec<Vec<char>>)
    ensures
        text::views(r@) == split(s@, c),
{
    broadcast use text::group_views;

    let mut out: Vec<Vec<char>> = Vec::new();
    let mut rest = s;
    let mut more = true;
    proof {
        assert(text::views(out@) + split(rest@, c) =~= split(s@, c));
    }
    while more
        invariant
            more ==> split(s@, c) == text::views(out@) + split(rest@, c),
            !more ==> split(s@, c) == text::views(out@),
        decreases rest@.len(), (if more { 1int } else { 0int }),
    {
        let ghost before = text::views(out@);
        let ghost tail = split(rest@, c);
        match find_char(rest, c) {
            None => {
                out.push(vstd::slice::slice_to_vec(rest));
                more = false;
                proof {
                    assert(text::views(out@) =~= before + tail);
                }
            },
            Some(i) => {
                out.push(vstd::slice::slice_to_vec(between(rest, 0, i)));
                rest = between(rest, i + 1, rest.len());
                proof {
                    assert(text::views(out@) + split(rest@, c) =~= before + tail);
                }
            },
        }
    }
    out
}

// ── What holds of splitting ─────────────────────────────────────────────────

/// No part holds the character at which a text is split, and there is at least
/// one part.
pub proof fn lemma_split_parts(s: Seq<char>, c: char)
    ensures
        split(s, c).len() > 0,
        forall|i: int| 0 <= i < split(s, c).len() ==> !(#[trigger] split(s, c)[i]).contains(c),
    decreases s.len(),
{
    s.index_of_first_ensures(c);
    if let Some(n) = s.index_of_first(c) {
        let head = s.take(n);
        let rest = split(s.skip(n + 1), c);
        lemma_split_parts(s.skip(n + 1), c);
        assert(!head.contains(c)) by {
            if head.contains(c) {
                let k = choose|k: int| 0 <= k < head.len() && head[k] == c;
                assert(s[k] == c);
            }
        }
        let all = seq![head] + rest;
        assert forall|i: int| 0 <= i < all.len() implies !(#[trigger] all[i]).contains(c) by {
            if i > 0 {
                assert(all[i] == rest[i - 1]);
            }
        }
    }
}

/// Parts that are joined by a character can be split again, where none of them
/// holds it.
pub proof fn lemma_split_join(parts: Seq<Seq<char>>, c: char)
    requires
        parts.len() > 0,
        forall|i: int| 0 <= i < parts.len() ==> !(#[trigger] parts[i]).contains(c),
    ensures
        split(text::join(parts, seq![c]), c) == parts,
    decreases parts.len(),
{
    let s = text::join(parts, seq![c]);
    s.index_of_first_ensures(c);
    if parts.len() == 1 {
        assert(!parts[0].contains(c));
        assert(split(s, c) =~= parts);
    } else {
        let rest = parts.skip(1);
        let first = parts[0];
        assert(parts =~= seq![first] + rest);
        text::lemma_join_first(first, rest, seq![c]);
        let n = first.len() as int;
        assert(s == first + seq![c] + text::join(rest, seq![c]));
        assert(s[n] == c);
        assert(s.contains(c));
        let i = s.index_of_first(c)->Some_0;
        assert(i == n) by {
            if i < n {
                assert(first[i] == c);
                assert(first.contains(c));
            }
        }
        assert(s.take(n) =~= first);
        assert(s.skip(n + 1) =~= text::join(rest, seq![c]));
        assert forall|j: int| 0 <= j < rest.len() implies !(#[trigger] rest[j]).contains(c) by {
            assert(rest[j] == parts[j + 1]);
        }
        lemma_split_join(rest, c);
        assert(split(s, c) =~= parts);
    }
}

/// What is put behind a separator is one more part.
pub proof fn lemma_split_push(s: Seq<char>, c: char, x: Seq<char>)
    requires
        !x.contains(c),
    ensures
        split(x, c) == seq![x],
        split(s + seq![c] + x, c) == split(s, c).push(x),
    decreases s.len(),
{
    x.index_of_first_ensures(c);
    s.index_of_first_ensures(c);
    let t = s + seq![c] + x;
    t.index_of_first_ensures(c);
    assert(t[s.len() as int] == c);
    assert(t.contains(c));
    let i = t.index_of_first(c)->Some_0;
    if s.contains(c) {
        let n = s.index_of_first(c)->Some_0;
        assert(i == n) by {
            assert(t[n] == s[n]);
            if i < n {
                assert(s[i] == t[i]);
                assert(s.take(n)[i] == c);
            }
        }
        lemma_split_push(s.skip(n + 1), c, x);
        assert(t.skip(n + 1) =~= s.skip(n + 1) + seq![c] + x);
        assert(t.take(n) =~= s.take(n));
        assert(split(t, c) =~= split(s, c).push(x));
    } else {
        assert(i == s.len()) by {
            if i < s.len() {
                assert(s[i] == c);
            }
        }
        assert(t.take(i) =~= s);
        assert(t.skip(i + 1) =~= x);
        assert(split(t, c) =~= seq![s] + split(x, c));
        assert(split(t, c) =~= split(s, c).push(x));
    }
}

} // verus!
