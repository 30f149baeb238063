//! The order of names: character by character, a prefix before what it begins.

use vstd::prelude::*;
use crate::text;

verus! {

/// Whether `a` from position `i` on comes before `b` from position `i` on.
pub open spec fn less_at(a: Seq<char>, b: Seq<char>, i: int) -> bool
    decreases b.len() - i,
{
    if i < 0 || i >= b.len() {
        false
    } else if i >= a.len() {
        true
    } else if a[i] != b[i] {
        a[i] < b[i]
    } else {
        less_at(a, b, i + 1)
    }
}

/// Whether `a` comes before `b`.
pub open spec fn less(a: Seq<char>, b: Seq<char>) -> bool {
    less_at(a, b, 0)
}

proof fn lemma_total_at(a: Seq<char>, b: Seq<char>, i: int)
    requires
        0 <= i <= a.len(),
        i <= b.len(),
        forall|j: int| 0 <= j < i ==> a[j] == b[j],
    ensures
        less_at(a, b, i) || less_at(b, a, i) || a == b,
    decreases b.len() - i,
{
    if i < a.len() && i < b.len() && a[i] == b[i] {
        lemma_total_at(a, b, i + 1);
    } else if i == a.len() && i == b.len() {
        assert(a =~= b);
    }
}

proof fn lemma_one_way_at(a: Seq<char>, b: Seq<char>, i: int)
    requires
        0 <= i,
        less_at(a, b, i),
    ensures
        !less_at(b, a, i),
        a != b,
    decreases b.len() - i,
{
    if i < a.len() && a[i] == b[i] {
        lemma_one_way_at(a, b, i + 1);
    }
}

proof fn lemma_through_at(a: Seq<char>, b: Seq<char>, c: Seq<char>, i: int)
    requires
        0 <= i,
        less_at(a, b, i),
        less_at(b, c, i),
    ensures
        less_at(a, c, i),
    decreases c.len() - i,
{
    if i < a.len() && i < b.len() && i < c.len() && a[i] == b[i] && b[i] == c[i] {
        lemma_through_at(a, b, c, i + 1);
    }
}

/// Of two different names one comes before the other.
pub proof fn lemma_total(a: Seq<char>, b: Seq<char>)
    ensures
        less(a, b) || less(b, a) || a == b,
{
    lemma_total_at(a, b, 0);
}

/// No name comes before itself, and no two names before each other.
pub proof fn lemma_one_way(a: Seq<char>, b: Seq<char>)
    requires
        less(a, b),
    ensures
        !less(b, a),
        a != b,
{
    lemma_one_way_at(a, b, 0);
}

/// The order is transitive.
pub proof fn lemma_through(a: Seq<char>, b: Seq<char>, c: Seq<char>)
    requires
        less(a, b),
        less(b, c),
    ensures
        less(a, c),
{
    lemma_through_at(a, b, c, 0);
}

/// How one name stands to another.
#[derive(Clone, Copy, PartialEq, Eq, Structural, Debug)]
pub enum Place {
    Before,
    Same,
    After,
}

/// Compares two names.
pub fn place(a: &str, b: &str) -> (r: Place)
    ensures
        r is Before == less(a@, b@),
        r is After == less(b@, a@),
        r is Same == (a@ == b@),
{
    broadcast use vstd::string::group_string_axioms;
    let mut x = a.chars();
    let mut y = b.chars();
    let ghost mut i: int = 0;
    proof {
        lemma_total(a@, b@);
        if less(a@, b@) {
            lemma_one_way(a@, b@);
        }
        if less(b@, a@) {
            lemma_one_way(b@, a@);
        }
        assert(a@.skip(0) =~= a@);
        assert(b@.skip(0) =~= b@);
    }
    loop
        invariant
            0 <= i <= a@.len(),
            i <= b@.len(),
            vstd::std_specs::iter::IteratorSpec::remaining(&x) == a@.skip(i),
            vstd::std_specs::iter::IteratorSpec::remaining(&y) == b@.skip(i),
            vstd::std_specs::iter::IteratorSpec::obeys_prophetic_iter_laws(&x),
            vstd::std_specs::iter::IteratorSpec::obeys_prophetic_iter_laws(&y),
            forall|j: int| 0 <= j < i ==> a@[j] == b@[j],
            less(a@, b@) == less_at(a@, b@, i),
            less(b@, a@) == less_at(b@, a@, i),
            less(a@, b@) || less(b@, a@) || a@ == b@,
            less(a@, b@) ==> !less(b@, a@) && a@ != b@,
            less(b@, a@) ==> a@ != b@,
        decreases a@.len() - i,
    {
        let p = x.next();
        let q = y.next();
        match p {
            None => {
                match q {
                    None => {
                        proof {
                            assert(a@ =~= b@);
                        }
                        return Place::Same;
                    },
                    Some(_) => {
                        return Place::Before;
                    },
                }
            },
            Some(c) => {
                match q {
                    None => {
                        return Place::After;
                    },
                    Some(d) => {
                        if c < d {
                            return Place::Before;
                        }
                        if d < c {
                            return Place::After;
                        }
                        proof {
                            assert(a@.skip(i).drop_first() =~= a@.skip(i + 1));
                            assert(b@.skip(i).drop_first() =~= b@.skip(i + 1));
                            i = i + 1;
                        }
                    },
                }
            },
        }
    }
}

/// Whether character sequence `a` comes before `b`.
pub fn comes_before(a: &[char], b: &[char]) -> (r: bool)
    ensures
        r == less(a@, b@),
{
    let mut i: usize = 0;
    while i < a.len() && i < b.len() && a[i] == b[i]
        invariant
            i <= a.len(),
            i <= b.len(),
            less(a@, b@) == less_at(a@, b@, i as int),
        decreases a.len() - i,
    {
        i = i + 1;
    }
    if i >= b.len() {
        false
    } else if i >= a.len() {
        true
    } else {
        a[i] < b[i]
    }
}

// ── Sorting ─────────────────────────────────────────────────────────────────

/// Whether no name stands before one that it follows in the order.
pub open spec fn ascending(s: Seq<Seq<char>>) -> bool {
    forall|i: int, j: int| 0 <= i < j < s.len() ==> !less(#[trigger] s[j], #[trigger] s[i])
}

/// Whether each name comes before the next.
pub open spec fn increasing(s: Seq<Seq<char>>) -> bool {
    forall|i: int, j: int| 0 <= i < j < s.len() ==> less(#[trigger] s[i], #[trigger] s[j])
}

/// Where `x` goes among the first `n` names: after every name that it does not
/// come before.
pub open spec fn slot(s: Seq<Seq<char>>, x: Seq<char>, n: int) -> int
    decreases n,
{
    if n <= 0 || n > s.len() || !less(x, s[n - 1]) {
        n
    } else {
        slot(s, x, n - 1)
    }
}

/// `s` with each name moved to its place.
pub open spec fn sorted(s: Seq<Seq<char>>) -> Seq<Seq<char>>
    decreases s.len(),
{
    if s.len() == 0 {
        s
    } else {
        let t = sorted(s.drop_last());
        t.insert(slot(t, s.last(), t.len() as int), s.last())
    }
}

/// `s` without the names that equal the one just before them.
pub open spec fn deduped(s: Seq<Seq<char>>) -> Seq<Seq<char>>
    decreases s.len(),
{
    if s.len() <= 1 {
        s
    } else if s[s.len() - 2] == s.last() {
        deduped(s.drop_last())
    } else {
        deduped(s.drop_last()).push(s.last())
    }
}

proof fn lemma_slot(s: Seq<Seq<char>>, x: Seq<char>, n: int)
    requires
        0 <= n <= s.len(),
    ensures
        0 <= slot(s, x, n) <= n,
        slot(s, x, n) > 0 ==> !less(x, s[slot(s, x, n) - 1]),
        forall|i: int| slot(s, x, n) <= i < n ==> less(x, #[trigger] s[i]),
    decreases n,
{
    if n > 0 && less(x, s[n - 1]) {
        lemma_slot(s, x, n - 1);
    }
}

/// Sorting leaves the names in order, and loses and adds none.
pub proof fn lemma_sorted(s: Seq<Seq<char>>)
    ensures
        ascending(sorted(s)),
        sorted(s).len() == s.len(),
        sorted(s).to_multiset() == s.to_multiset(),
        forall|x: Seq<char>| #[trigger] sorted(s).contains(x) <==> s.contains(x),
    decreases s.len(),
{
    broadcast use vstd::seq_lib::group_to_multiset_ensures;
    if s.len() > 0 {
        let t = sorted(s.drop_last());
        let x = s.last();
        lemma_sorted(s.drop_last());
        lemma_slot(t, x, t.len() as int);
        let p = slot(t, x, t.len() as int);
        let r = t.insert(p, x);
        assert forall|i: int, j: int| 0 <= i < j < r.len() implies !less(
            #[trigger] r[j],
            #[trigger] r[i],
        ) by {
            if i < p && j == p {
                if less(x, t[i]) {
                    if i < p - 1 {
                        lemma_total(t[i], t[p - 1]);
                        if less(t[i], t[p - 1]) {
                            lemma_through(x, t[i], t[p - 1]);
                        }
                    }
                }
            } else if i == p && j > p {
                lemma_one_way(x, t[j - 1]);
            } else if i < p && j > p {
                assert(r[j] == t[j - 1]);
            }
        }
        assert(s =~= s.drop_last().push(x));
        assert(r.to_multiset() == s.to_multiset());
    }
    assert forall|x: Seq<char>| #[trigger] sorted(s).contains(x) <==> s.contains(x) by {
        assert(sorted(s).contains(x) <==> sorted(s).to_multiset().count(x) > 0);
        assert(s.contains(x) <==> s.to_multiset().count(x) > 0);
    }
}

/// Dropping repeats from names in order leaves each name once, in order.
pub proof fn lemma_deduped(s: Seq<Seq<char>>)
    requires
        ascending(s),
    ensures
        increasing(deduped(s)),
        forall|x: Seq<char>| #[trigger] deduped(s).contains(x) <==> s.contains(x),
        s.len() > 0 ==> deduped(s).len() > 0 && deduped(s).last() == s.last(),
    decreases s.len(),
{
    if s.len() > 1 {
        let t = s.drop_last();
        lemma_deduped(t);
        let d = deduped(t);
        let r = deduped(s);
        let x = s.last();
        assert(t.last() == s[s.len() - 2]);
        if s[s.len() - 2] != x {
            lemma_total(t.last(), x);
            assert(less(t.last(), x));
            assert forall|i: int, j: int| 0 <= i < j < r.len() implies less(
                #[trigger] r[i],
                #[trigger] r[j],
            ) by {
                if j == r.len() - 1 {
                    if i < d.len() - 1 {
                        lemma_through(d[i], d.last(), x);
                    }
                }
            }
        }
        assert forall|y: Seq<char>| #[trigger] r.contains(y) <==> s.contains(y) by {
            if s.contains(y) {
                let i = choose|i: int| 0 <= i < s.len() && s[i] == y;
                if i < s.len() - 1 {
                    assert(t[i] == y);
                    assert(t.contains(y));
                    assert(d.contains(y));
                    let k = choose|k: int| 0 <= k < d.len() && d[k] == y;
                    assert(r[k] == y);
                } else {
                    assert(r.last() == y);
                }
            }
            if r.contains(y) {
                let k = choose|k: int| 0 <= k < r.len() && r[k] == y;
                if k < d.len() {
                    assert(d[k] == y);
                    assert(d.contains(y));
                    assert(t.contains(y));
                    let i = choose|i: int| 0 <= i < t.len() && t[i] == y;
                    assert(s[i] == y);
                } else {
                    assert(s.last() == y);
                }
            }
        }
    }
}

/// Two sequences of increasing names with the same members are the same.
pub proof fn lemma_increasing_unique(a: Seq<Seq<char>>, b: Seq<Seq<char>>)
    requires
        increasing(a),
        increasing(b),
        forall|x: Seq<char>| #[trigger] a.contains(x) <==> b.contains(x),
    ensures
        a == b,
    decreases a.len(),
{
    if a.len() == 0 {
        if b.len() > 0 {
            assert(b.contains(b[0]));
            assert(a.contains(b[0]));
        }
        assert(a =~= b);
    } else {
        let x = a.last();
        assert(a.contains(x));
        assert(b.contains(x));
        let i = choose|i: int| 0 <= i < b.len() && b[i] == x;
        if i < b.len() - 1 {
            let y = b.last();
            assert(less(x, y));
            assert(b.contains(y));
            assert(a.contains(y));
            let k = choose|k: int| 0 <= k < a.len() && a[k] == y;
            if k < a.len() - 1 {
                lemma_one_way(y, x);
            } else {
                lemma_one_way(x, y);
            }
        }
        assert(b.last() == x);
        assert forall|z: Seq<char>| #[trigger]
            a.drop_last().contains(z) <==> b.drop_last().contains(z) by {
            if a.drop_last().contains(z) {
                let k = choose|k: int| 0 <= k < a.len() - 1 && a.drop_last()[k] == z;
                assert(a[k] == z);
                assert(a.contains(z));
                lemma_one_way(z, x);
                let j = choose|j: int| 0 <= j < b.len() && b[j] == z;
                assert(b.drop_last()[j] == z);
            }
            if b.drop_last().contains(z) {
                let k = choose|k: int| 0 <= k < b.len() - 1 && b.drop_last()[k] == z;
                assert(b[k] == z);
                assert(b.contains(z));
                lemma_one_way(z, x);
                assert(a.contains(z));
                let j = choose|j: int| 0 <= j < a.len() && a[j] == z;
                assert(a.drop_last()[j] == z);
            }
        }
        lemma_increasing_unique(a.drop_last(), b.drop_last());
        assert(a =~= a.drop_last().push(x));
        assert(b =~= b.drop_last().push(x));
    }
}

/// Sorts words.
pub fn sort_words(words: &[Vec<char>]) -> (r: Vec<Vec<char>>)
    ensures
        text::views(r@) == sorted(text::views(words@)),
{
    broadcast use text::group_views;

    let mut out: Vec<Vec<char>> = Vec::new();
    let ghost all = text::views(words@);
    let mut i: usize = 0;
    proof {
        assert(all.take(0) =~= seq![]);
    }
    while i < words.len()
        invariant
            i <= words.len(),
            all == text::views(words@),
            out@.len() == i,
            text::views(out@) == sorted(all.take(i as int)),
        decreases words.len() - i,
    {
        let ghost t = text::views(out@);
        let mut n: usize = out.len();
        while n > 0 && comes_before(words[i].as_slice(), out[n - 1].as_slice())
            invariant
                i < words.len(),
                n <= out.len(),
                t == text::views(out@),
                slot(t, words@[i as int]@, out@.len() as int) == slot(
                    t,
                    words@[i as int]@,
                    n as int,
                ),
            decreases n,
        {
            n = n - 1;
        }
        let w = vstd::slice::slice_to_vec(words[i].as_slice());
        let ghost before = out@;
        out.insert(n, w);
        proof {
            let x = words@[i as int]@;
            assert(all.take(i + 1).drop_last() =~= all.take(i as int));
            assert(all.take(i + 1).last() == x);
            assert(text::views(out@) =~= t.insert(n as int, x));
        }
        i = i + 1;
    }
    proof {
        assert(all.take(i as int) =~= all);
    }
    out
}

/// Drops each word that equals the one just before it.
pub fn drop_repeats(words: &[Vec<char>]) -> (r: Vec<Vec<char>>)
    ensures
        text::views(r@) == deduped(text::views(words@)),
{
    broadcast use text::group_views;

    let mut out: Vec<Vec<char>> = Vec::new();
    let ghost all = text::views(words@);
    let mut i: usize = 0;
    proof {
        assert(all.take(0) =~= seq![]);
    }
    while i < words.len()
        invariant
            i <= words.len(),
            all == text::views(words@),
            text::views(out@) == deduped(all.take(i as int)),
        decreases words.len() - i,
    {
        proof {
            let t = all.take(i + 1);
            assert(t.drop_last() =~= all.take(i as int));
            assert(t.last() == words@[i as int]@);
            if i > 0 {
                assert(t[t.len() - 2] == words@[i - 1]@);
            } else {
                assert(t =~= seq![words@[0]@]);
                assert(text::views(out@) =~= seq![]);
            }
        }
        if i == 0 || !text::same_chars(words[i - 1].as_slice(), words[i].as_slice()) {
            let ghost before = text::views(out@);
            out.push(vstd::slice::slice_to_vec(words[i].as_slice()));
            proof {
                assert(text::views(out@) =~= before.push(words@[i as int]@));
            }
        }
        i = i + 1;
    }
    proof {
        assert(all.take(i as int) =~= all);
    }
    out
}

/// Where two names first differ, the one with the smaller character comes first;
/// where one ends there, it does.
pub proof fn lemma_first_difference(
    a: Seq<char>,
    x: char,
    y: char,
    b: Seq<char>,
    c: Seq<char>,
)
    ensures
        (x as int) < (y as int) ==> less(a + seq![x] + b, a + seq![y] + c),
        less(a, a + seq![y] + c),
{
    let p = a + seq![x] + b;
    let q = a + seq![y] + c;
    lemma_common(p, q, 0, a.len() as int);
    lemma_common(a, q, 0, a.len() as int);
    assert(p[a.len() as int] == x);
    assert(q[a.len() as int] == y);
}

proof fn lemma_common(p: Seq<char>, q: Seq<char>, i: int, n: int)
    requires
        0 <= i <= n <= p.len(),
        n <= q.len(),
        forall|j: int| 0 <= j < n ==> p[j] == q[j],
    ensures
        less_at(p, q, i) == less_at(p, q, n),
    decreases n - i,
{
    if i < n {
        lemma_common(p, q, i + 1, n);
    }
}

} // verus!
