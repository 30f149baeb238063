//! Text as a sequence of characters: whitespace, words and joining.

use vstd::prelude::*;
use vstd::slice::slice_subrange;

verus! {

/// `String::push` appends one character.
pub assume_specification[ String::push ](s: &mut String, c: char)
    ensures
        final(s)@ == old(s)@.push(c),
;

/// The views of the items of a sequence.
pub open spec fn views<T: View>(s: Seq<T>) -> Seq<T::V> {
    Seq::new(s.len(), |i: int| s[i]@)
}

/// The view of an optional value.
pub open spec fn view_of<T: View>(o: Option<T>) -> Option<T::V> {
    match o {
        Some(x) => Some(x@),
        None => None,
    }
}

pub broadcast proof fn lemma_views_push<T: View>(s: Seq<T>, x: T)
    ensures
        #[trigger] views(s.push(x)) == views(s).push(x@),
{
    assert(views(s.push(x)) =~= views(s).push(x@));
}

pub broadcast proof fn lemma_views_empty<T: View>()
    ensures
        #[trigger] views(Seq::<T>::empty()) == Seq::<T::V>::empty(),
{
    assert(views(Seq::<T>::empty()) =~= Seq::<T::V>::empty());
}

pub broadcast proof fn lemma_views_update<T: View>(s: Seq<T>, i: int, x: T)
    requires
        0 <= i < s.len(),
    ensures
        #[trigger] views(s.update(i, x)) == views(s).update(i, x@),
{
    assert(views(s.update(i, x)) =~= views(s).update(i, x@));
}

pub broadcast group group_views {
    lemma_views_push,
    lemma_views_empty,
    lemma_views_update,
}

/// A value that can be copied without losing anything its view shows.
pub trait Dup: View + Sized {
    fn dup(&self) -> (r: Self)
        ensures
            r@ == self@,
    ;
}

impl Dup for String {
    fn dup(&self) -> (r: Self) {
        self.clone()
    }
}

impl Dup for bool {
    fn dup(&self) -> (r: Self) {
        *self
    }
}

impl Dup for Vec<char> {
    fn dup(&self) -> (r: Self) {
        vstd::slice::slice_to_vec(self.as_slice())
    }
}

impl<A: Dup, B: Dup> Dup for (A, B) {
    fn dup(&self) -> (r: Self) {
        (self.0.dup(), self.1.dup())
    }
}

impl<A: Dup, B: Dup, C: Dup, D: Dup> Dup for (A, B, C, D) {
    fn dup(&self) -> (r: Self) {
        (self.0.dup(), self.1.dup(), self.2.dup(), self.3.dup())
    }
}

/// Copies a vector item by item.
pub fn dup_all<T: Dup>(v: &[T]) -> (r: Vec<T>)
    ensures
        views(r@) == views(v@),
{
    let mut r: Vec<T> = Vec::new();
    let mut i: usize = 0;
    while i < v.len()
        invariant
            i <= v.len(),
            r@.len() == i,
            forall|j: int| 0 <= j < i ==> (#[trigger] r@[j])@ == v@[j]@,
        decreases v.len() - i,
    {
        r.push(v[i].dup());
        i = i + 1;
    }
    proof {
        assert(views(r@) =~= views(v@));
    }
    r
}

/// Copies an optional value.
pub fn dup_opt<T: Dup>(o: &Option<T>) -> (r: Option<T>)
    ensures
        view_of(r) == view_of(*o),
{
    match o {
        Some(x) => Some(x.dup()),
        None => None,
    }
}

/// A list of words.
#[derive(Debug)]
pub struct Words(pub Vec<Vec<char>>);

impl View for Words {
    type V = Seq<Seq<char>>;

    open spec fn view(&self) -> Seq<Seq<char>> {
        views(self.0@)
    }
}

/// An optional value, whose view is the optional view.
#[derive(Debug)]
pub struct Maybe<T>(pub Option<T>);

impl<T: View> View for Maybe<T> {
    type V = Option<T::V>;

    open spec fn view(&self) -> Option<T::V> {
        view_of(self.0)
    }
}

// ── Strings and character vectors ───────────────────────────────────────────

/// The characters of a string.
pub fn chars_of(s: &str) -> (r: Vec<char>)
    ensures
        r@ == s@,
{
    let mut v: Vec<char> = Vec::new();
    for c in it: s.chars()
        invariant
            v@ =~= it.seq().take(it.index()),
            it.seq() == s@,
    {
        v.push(c);
    }
    v
}

/// The string made of the given characters.
pub fn string_of(s: &[char]) -> (r: String)
    ensures
        r@ == s@,
{
    let mut out = String::new();
    let mut i: usize = 0;
    while i < s.len()
        invariant
            i <= s.len(),
            out@ == s@.take(i as int),
        decreases s.len() - i,
    {
        out.push(s[i]);
        proof {
            assert(s@.take(i + 1) =~= s@.take(i as int).push(s@[i as int]));
        }
        i = i + 1;
    }
    proof {
        assert(s@.take(i as int) =~= s@);
    }
    out
}

/// A string with the text of `s`.
pub fn owned(s: &str) -> (r: String)
    ensures
        r@ == s@,
{
    s.to_owned()
}

/// Whether the characters spell out `lit`.
pub fn is_text(s: &[char], lit: &str) -> (r: bool)
    ensures
        r == (s@ == lit@),
{
    let mut i: usize = 0;
    for c in it: lit.chars()
        invariant
            it.seq() == lit@,
            i == it.index(),
            i <= s.len(),
            s@.take(i as int) =~= lit@.take(i as int),
    {
        if i >= s.len() || s[i] != c {
            proof {
                assert(i < lit@.len());
                assert(lit@[i as int] == c);
            }
            return false;
        }
        i = i + 1;
    }
    proof {
        assert(lit@.take(i as int) =~= lit@);
        assert(s@.take(s@.len() as int) =~= s@);
    }
    i == s.len()
}

/// Appends a string to a list.
pub fn put(list: &mut Vec<String>, s: &str)
    ensures
        views(final(list)@) == views(old(list)@).push(s@),
{
    broadcast use group_views;

    list.push(owned(s));
}

/// Whether two strings have the same text.
pub fn same_text(a: &str, b: &str) -> (r: bool)
    ensures
        r == (a@ == b@),
{
    let v = chars_of(a);
    is_text(v.as_slice(), b)
}

/// Whether two character sequences are equal.
pub fn same_chars(a: &[char], b: &[char]) -> (r: bool)
    ensures
        r == (a@ == b@),
{
    if a.len() != b.len() {
        return false;
    }
    let mut i: usize = 0;
    while i < a.len()
        invariant
            i <= a.len(),
            a.len() == b.len(),
            forall|j: int| 0 <= j < i ==> a@[j] == b@[j],
        decreases a.len() - i,
    {
        if a[i] != b[i] {
            return false;
        }
        i = i + 1;
    }
    proof {
        assert(a@ =~= b@);
    }
    true
}

/// Appends characters to a vector.
pub fn append(out: &mut Vec<char>, s: &[char])
    ensures
        final(out)@ == old(out)@ + s@,
{
    let mut i: usize = 0;
    while i < s.len()
        invariant
            i <= s.len(),
            out@ =~= old(out)@ + s@.take(i as int),
        decreases s.len() - i,
    {
        out.push(s[i]);
        i = i + 1;
    }
    proof {
        assert(s@.take(i as int) =~= s@);
    }
}

/// Appends the text of a string to a vector.
pub fn append_str(out: &mut Vec<char>, s: &str)
    ensures
        final(out)@ == old(out)@ + s@,
{
    let v = chars_of(s);
    append(out, v.as_slice());
}

// ── Whitespace ──────────────────────────────────────────────────────────────

/// The characters with the Unicode property `White_Space`.
pub open spec fn is_space(c: char) -> bool {
    ||| '\t' <= c <= '\r'
    ||| c == ' '
    ||| c == '\u{85}'
    ||| c == '\u{a0}'
    ||| c == '\u{1680}'
    ||| '\u{2000}' <= c <= '\u{200a}'
    ||| c == '\u{2028}'
    ||| c == '\u{2029}'
    ||| c == '\u{202f}'
    ||| c == '\u{205f}'
    ||| c == '\u{3000}'
}

/// Whether `c` is whitespace.
pub fn space(c: char) -> (r: bool)
    ensures
        r == is_space(c),
{
    ('\t' <= c && c <= '\r') || c == ' ' || c == '\u{85}' || c == '\u{a0}' || c == '\u{1680}' || (
    '\u{2000}' <= c && c <= '\u{200a}') || c == '\u{2028}' || c == '\u{2029}' || c == '\u{202f}'
        || c == '\u{205f}' || c == '\u{3000}'
}

/// The first position at or after `i` that holds no whitespace.
pub open spec fn skip_space(s: Seq<char>, i: int) -> int
    decreases s.len() - i,
{
    if 0 <= i < s.len() && is_space(s[i]) {
        skip_space(s, i + 1)
    } else {
        i
    }
}

/// The first position at or after `i` that holds whitespace.
pub open spec fn word_end(s: Seq<char>, i: int) -> int
    decreases s.len() - i,
{
    if 0 <= i < s.len() && !is_space(s[i]) {
        word_end(s, i + 1)
    } else {
        i
    }
}

/// The position after the last character before `j` that is no whitespace.
pub open spec fn drop_space(s: Seq<char>, j: int) -> int
    decreases j,
{
    if 0 < j <= s.len() && is_space(s[j - 1]) {
        drop_space(s, j - 1)
    } else {
        j
    }
}

pub proof fn lemma_skip_space(s: Seq<char>, i: int)
    requires
        0 <= i <= s.len(),
    ensures
        i <= skip_space(s, i) <= s.len(),
        forall|j: int| i <= j < skip_space(s, i) ==> is_space(#[trigger] s[j]),
        skip_space(s, i) < s.len() ==> !is_space(s[skip_space(s, i)]),
    decreases s.len() - i,
{
    if i < s.len() && is_space(s[i]) {
        lemma_skip_space(s, i + 1);
    }
}

pub proof fn lemma_word_end(s: Seq<char>, i: int)
    requires
        0 <= i <= s.len(),
    ensures
        i <= word_end(s, i) <= s.len(),
        forall|j: int| i <= j < word_end(s, i) ==> !is_space(#[trigger] s[j]),
        word_end(s, i) < s.len() ==> is_space(s[word_end(s, i)]),
    decreases s.len() - i,
{
    if i < s.len() && !is_space(s[i]) {
        lemma_word_end(s, i + 1);
    }
}

pub proof fn lemma_drop_space(s: Seq<char>, j: int)
    requires
        0 <= j <= s.len(),
    ensures
        0 <= drop_space(s, j) <= j,
        forall|i: int| drop_space(s, j) <= i < j ==> is_space(#[trigger] s[i]),
        drop_space(s, j) > 0 ==> !is_space(s[drop_space(s, j) - 1]),
    decreases j,
{
    if 0 < j && is_space(s[j - 1]) {
        lemma_drop_space(s, j - 1);
    }
}

/// `s` without leading whitespace.
pub open spec fn trim_start(s: Seq<char>) -> Seq<char> {
    s.skip(skip_space(s, 0))
}

/// `s` without trailing whitespace.
pub open spec fn trim_end(s: Seq<char>) -> Seq<char> {
    s.take(drop_space(s, s.len() as int))
}

/// `s` without whitespace at either end.
pub open spec fn trim(s: Seq<char>) -> Seq<char> {
    trim_end(trim_start(s))
}

/// Finds the first position at or after `i` that holds no whitespace.
pub fn after_space(s: &[char], i: usize) -> (r: usize)
    requires
        i <= s@.len(),
    ensures
        r == skip_space(s@, i as int),
        i <= r <= s@.len(),
{
    let mut j: usize = i;
    while j < s.len() && space(s[j])
        invariant
            i <= j <= s.len(),
            skip_space(s@, i as int) == skip_space(s@, j as int),
        decreases s.len() - j,
    {
        j = j + 1;
    }
    j
}

/// Finds the first position at or after `i` that holds whitespace.
pub fn after_word(s: &[char], i: usize) -> (r: usize)
    requires
        i <= s@.len(),
    ensures
        r == word_end(s@, i as int),
        i <= r <= s@.len(),
{
    let mut j: usize = i;
    while j < s.len() && !space(s[j])
        invariant
            i <= j <= s.len(),
            word_end(s@, i as int) == word_end(s@, j as int),
        decreases s.len() - j,
    {
        j = j + 1;
    }
    j
}

/// Removes leading whitespace.
pub fn trimmed_start(s: &[char]) -> (r: &[char])
    ensures
        r@ == trim_start(s@),
{
    let a = after_space(s, 0);
    slice_subrange(s, a, s.len())
}

/// Removes trailing whitespace.
pub fn trimmed_end(s: &[char]) -> (r: &[char])
    ensures
        r@ == trim_end(s@),
{
    let mut j: usize = s.len();
    while j > 0 && space(s[j - 1])
        invariant
            0 <= j <= s.len(),
            drop_space(s@, s@.len() as int) == drop_space(s@, j as int),
        decreases j,
    {
        j = j - 1;
    }
    slice_subrange(s, 0, j)
}

/// Removes whitespace at both ends.
pub fn trimmed(s: &[char]) -> (r: &[char])
    ensures
        r@ == trim(s@),
{
    trimmed_end(trimmed_start(s))
}

/// A slice without its first `n` characters.
pub fn from(s: &[char], n: usize) -> (r: &[char])
    requires
        n <= s@.len(),
    ensures
        r@ == s@.skip(n as int),
{
    slice_subrange(s, n, s.len())
}

/// The first `n` characters of a slice.
pub fn upto(s: &[char], n: usize) -> (r: &[char])
    requires
        n <= s@.len(),
    ensures
        r@ == s@.take(n as int),
{
    slice_subrange(s, 0, n)
}

// ── Words ───────────────────────────────────────────────────────────────────

/// The words of `s` from position `i` on: maximal runs without whitespace.
pub open spec fn words_from(s: Seq<char>, i: int) -> Seq<Seq<char>>
    decreases s.len() - i,
    when 0 <= i <= s.len()
    via words_from_decreases
{
    let a = skip_space(s, i);
    if a >= s.len() {
        seq![]
    } else {
        seq![s.subrange(a, word_end(s, a))] + words_from(s, word_end(s, a))
    }
}

#[via_fn]
proof fn words_from_decreases(s: Seq<char>, i: int) {
    lemma_skip_space(s, i);
    let a = skip_space(s, i);
    if a < s.len() {
        lemma_word_end(s, a);
        lemma_word_end(s, a + 1);
    }
}

/// The words of `s`.
pub open spec fn words(s: Seq<char>) -> Seq<Seq<char>> {
    words_from(s, 0)
}

/// Splits text into words.
pub fn split_words(s: &[char]) -> (r: Vec<Vec<char>>)
    ensures
        views(r@) == words(s@),
{
    broadcast use group_views;

    let mut out: Vec<Vec<char>> = Vec::new();
    let mut i: usize = 0;
    proof {
        assert(views(out@) + words_from(s@, 0) =~= words_from(s@, 0));
    }
    while i < s.len()
        invariant
            i <= s.len(),
            words(s@) == views(out@) + words_from(s@, i as int),
        decreases s.len() - i,
    {
        let a = after_space(s, i);
        if a >= s.len() {
            i = a;
            proof {
                assert(words_from(s@, i as int) =~= seq![]);
            }
        } else {
            let b = after_word(s, a);
            proof {
                lemma_word_end(s@, a as int);
                lemma_word_end(s@, a + 1);
                lemma_skip_space(s@, i as int);
            }
            let ghost before = out@;
            out.push(vstd::slice::slice_to_vec(slice_subrange(s, a, b)));
            proof {
                assert(views(out@) + words_from(s@, b as int) =~= views(before) + words_from(
                    s@,
                    i as int,
                ));
            }
            i = b;
        }
    }
    proof {
        assert(words_from(s@, s@.len() as int) =~= seq![]);
        assert(views(out@) + words_from(s@, i as int) =~= views(out@));
    }
    out
}

/// The texts in `parts` with `sep` between each two of them.
pub open spec fn join(parts: Seq<Seq<char>>, sep: Seq<char>) -> Seq<char>
    decreases parts.len(),
{
    if parts.len() == 0 {
        seq![]
    } else if parts.len() == 1 {
        parts[0]
    } else {
        join(parts.drop_last(), sep) + sep + parts.last()
    }
}

/// Joining begins with the first part and, where there are others, the
/// separator.
pub proof fn lemma_join_first(first: Seq<char>, rest: Seq<Seq<char>>, sep: Seq<char>)
    requires
        rest.len() > 0,
    ensures
        join(seq![first] + rest, sep) == first + sep + join(rest, sep),
    decreases rest.len(),
{
    let all = seq![first] + rest;
    if rest.len() == 1 {
        assert(all.drop_last() =~= seq![first]);
        assert(join(all.drop_last(), sep) == first);
        assert(all.last() == rest[0]);
        assert(join(all, sep) == join(all.drop_last(), sep) + sep + all.last());
    } else {
        lemma_join_first(first, rest.drop_last(), sep);
        assert(all.drop_last() =~= seq![first] + rest.drop_last());
        assert(join(all, sep) =~= first + sep + join(rest, sep));
    }
}

/// What a list holds once something was put at its end.
pub proof fn lemma_push_contains<T>(s: Seq<T>, x: T)
    ensures
        forall|y: T| #[trigger] s.push(x).contains(y) == (s.contains(y) || y == x),
{
    assert forall|y: T| #[trigger] s.push(x).contains(y) == (s.contains(y) || y == x) by {
        if s.contains(y) {
            let i = choose|i: int| 0 <= i < s.len() && s[i] == y;
            assert(s.push(x)[i] == y);
        }
        assert(s.push(x)[s.len() as int] == x);
        if s.push(x).contains(y) && y != x {
            let i = choose|i: int| 0 <= i < s.push(x).len() && s.push(x)[i] == y;
            assert(s[i] == y);
        }
    }
}

/// Whether a text is a single word.
pub open spec fn is_word(w: Seq<char>) -> bool {
    w.len() > 0 && forall|i: int| 0 <= i < w.len() ==> !is_space(#[trigger] w[i])
}

/// What a text is split into are words.
pub proof fn lemma_words_are_words(s: Seq<char>, i: int)
    requires
        0 <= i <= s.len(),
    ensures
        forall|n: int| 0 <= n < words_from(s, i).len() ==> is_word(#[trigger] words_from(s, i)[n]),
    decreases s.len() - i,
{
    lemma_skip_space(s, i);
    let a = skip_space(s, i);
    if a < s.len() {
        let b = word_end(s, a);
        lemma_word_end(s, a);
        lemma_word_end(s, a + 1);
        lemma_words_are_words(s, b);
        let first = s.subrange(a, b);
        assert(is_word(first));
        assert forall|n: int| 0 <= n < words_from(s, i).len() implies is_word(
            #[trigger] words_from(s, i)[n],
        ) by {
            if n > 0 {
                assert(words_from(s, i)[n] == words_from(s, b)[n - 1]);
            }
        }
    }
}

proof fn lemma_words_shift(s: Seq<char>, t: Seq<char>, n: int, i: int)
    requires
        0 <= n,
        0 <= i <= t.len(),
        s.len() == n + t.len(),
        forall|j: int| 0 <= j < t.len() ==> s[n + j] == #[trigger] t[j],
    ensures
        words_from(s, n + i) == words_from(t, i),
    decreases t.len() - i,
{
    lemma_ends_shift(s, t, n, i);
    lemma_skip_space(t, i);
    let a = skip_space(t, i);
    if a < t.len() {
        lemma_ends_shift(s, t, n, a);
        lemma_word_end(t, a);
        lemma_word_end(t, a + 1);
        let b = word_end(t, a);
        lemma_words_shift(s, t, n, b);
        assert(s.subrange(n + a, n + b) =~= t.subrange(a, b));
    }
}

proof fn lemma_ends_shift(s: Seq<char>, t: Seq<char>, n: int, i: int)
    requires
        0 <= n,
        0 <= i <= t.len(),
        s.len() == n + t.len(),
        forall|j: int| 0 <= j < t.len() ==> s[n + j] == #[trigger] t[j],
    ensures
        skip_space(s, n + i) == n + skip_space(t, i),
        word_end(s, n + i) == n + word_end(t, i),
    decreases t.len() - i,
{
    if i < t.len() {
        assert(s[n + i] == t[i]);
        lemma_ends_shift(s, t, n, i + 1);
    }
}

proof fn lemma_first_word(w: Seq<char>, t: Seq<char>)
    requires
        is_word(w),
    ensures
        words(w + " "@ + t) == seq![w] + words(t),
        words(w) == seq![w],
{
    reveal_strlit(" ");
    let s = w + " "@ + t;
    let n = w.len() as int;
    assert(s[0] == w[0]);
    assert(s[n] == ' ');
    assert(skip_space(s, 0) == 0);
    lemma_word_end(s, 0);
    assert(word_end(s, 0) == n) by {
        let e = word_end(s, 0);
        if e < n {
            assert(s[e] == w[e]);
        }
    }
    assert(s.subrange(0, n) =~= w);
    assert(skip_space(s, n) == skip_space(s, n + 1));
    lemma_skip_space(s, n + 1);
    assert(words_from(s, n) == words_from(s, n + 1));
    lemma_words_shift(s, t, n + 1, 0);
    assert(words(s) == seq![w] + words_from(s, n));
    assert(skip_space(w, 0) == 0);
    lemma_word_end(w, 0);
    assert(word_end(w, 0) == n) by {
        let e = word_end(w, 0);
        if e < n {
            assert(!is_space(w[e]));
        }
    }
    assert(w.subrange(0, n) =~= w);
    assert(skip_space(w, n) == n);
    assert(words_from(w, n) =~= seq![]);
    assert(words(w) =~= seq![w]);
}

/// Words that are joined by spaces can be split again.
pub proof fn lemma_words_of_join(list: Seq<Seq<char>>)
    requires
        forall|n: int| 0 <= n < list.len() ==> is_word(#[trigger] list[n]),
    ensures
        words(join(list, " "@)) == list,
    decreases list.len(),
{
    if list.len() == 0 {
        assert(words(seq![]) =~= seq![]);
        assert(list =~= seq![]);
    } else if list.len() == 1 {
        lemma_first_word(list[0], seq![]);
        assert(list =~= seq![list[0]]);
    } else {
        let rest = list.skip(1);
        assert(list =~= seq![list[0]] + rest);
        assert forall|n: int| 0 <= n < rest.len() implies is_word(#[trigger] rest[n]) by {
            assert(rest[n] == list[n + 1]);
        }
        lemma_words_of_join(rest);
        lemma_join_first(list[0], rest, " "@);
        lemma_first_word(list[0], join(rest, " "@));
    }
}

/// Joins character vectors with a separator.
pub fn join_chars(parts: &[Vec<char>], sep: &str) -> (r: Vec<char>)
    ensures
        r@ == join(views(parts@), sep@),
{
    let sep_chars = chars_of(sep);
    let mut out: Vec<char> = Vec::new();
    let mut i: usize = 0;
    let ghost all = views(parts@);
    while i < parts.len()
        invariant
            i <= parts.len(),
            all == views(parts@),
            sep_chars@ == sep@,
            out@ == join(all.take(i as int), sep@),
        decreases parts.len() - i,
    {
        proof {
            assert(all.take(i + 1).drop_last() =~= all.take(i as int));
            assert(all[i as int] == parts@[i as int]@);
        }
        if i == 0 {
            append(&mut out, parts[i].as_slice());
            proof {
                assert(out@ =~= parts@[0]@);
            }
        } else {
            append(&mut out, sep_chars.as_slice());
            append(&mut out, parts[i].as_slice());
        }
        i = i + 1;
    }
    proof {
        assert(all.take(i as int) =~= all);
    }
    out
}

/// Joins strings with a separator.
pub fn join_strings(parts: &[String], sep: &str) -> (r: String)
    ensures
        r@ == join(views(parts@), sep@),
{
    let mut v: Vec<Vec<char>> = Vec::new();
    let mut i: usize = 0;
    while i < parts.len()
        invariant
            i <= parts.len(),
            v@.len() == i,
            forall|j: int| 0 <= j < i ==> (#[trigger] v@[j])@ == parts@[j]@,
        decreases parts.len() - i,
    {
        v.push(chars_of(parts[i].as_str()));
        i = i + 1;
    }
    proof {
        assert(views(v@) =~= views(parts@));
    }
    let out = join_chars(v.as_slice(), sep);
    string_of(out.as_slice())
}

/// Turns character vectors into strings.
pub fn strings_of(parts: &[Vec<char>]) -> (r: Vec<String>)
    ensures
        views(r@) == views(parts@),
{
    let mut v: Vec<String> = Vec::new();
    let mut i: usize = 0;
    while i < parts.len()
        invariant
            i <= parts.len(),
            v@.len() == i,
            forall|j: int| 0 <= j < i ==> (#[trigger] v@[j])@ == parts@[j]@,
        decreases parts.len() - i,
    {
        v.push(string_of(parts[i].as_slice()));
        i = i + 1;
    }
    proof {
        assert(views(v@) =~= views(parts@));
    }
    v
}

/// Whether two lists of words are the same.
pub fn same_words(a: &[Vec<char>], b: &[Vec<char>]) -> (r: bool)
    ensures
        r == (views(a@) == views(b@)),
{
    if a.len() != b.len() {
        proof {
            assert(views(a@).len() != views(b@).len());
        }
        return false;
    }
    let mut i: usize = 0;
    while i < a.len()
        invariant
            i <= a.len(),
            a.len() == b.len(),
            forall|j: int| 0 <= j < i ==> (#[trigger] a@[j])@ == b@[j]@,
        decreases a.len() - i,
    {
        if !same_chars(a[i].as_slice(), b[i].as_slice()) {
            proof {
                assert(views(a@)[i as int] != views(b@)[i as int]);
            }
            return false;
        }
        i = i + 1;
    }
    proof {
        assert(views(a@) =~= views(b@));
    }
    true
}

/// Whether a word is in a list.
pub fn has_word(words: &[Vec<char>], w: &[char]) -> (r: bool)
    ensures
        r == views(words@).contains(w@),
{
    let mut i: usize = 0;
    while i < words.len()
        invariant
            i <= words.len(),
            forall|j: int| 0 <= j < i ==> (#[trigger] words@[j])@ != w@,
        decreases words.len() - i,
    {
        if same_chars(words[i].as_slice(), w) {
            proof {
                assert(views(words@)[i as int] == w@);
            }
            return true;
        }
        i = i + 1;
    }
    proof {
        if views(words@).contains(w@) {
            let k = choose|k: int| 0 <= k < views(words@).len() && views(words@)[k] == w@;
            assert(words@[k]@ == w@);
        }
    }
    false
}

/// Whether a string is in a list.
pub fn has_string(list: &[String], w: &str) -> (r: bool)
    ensures
        r == views(list@).contains(w@),
{
    let mut i: usize = 0;
    while i < list.len()
        invariant
            i <= list.len(),
            forall|j: int| 0 <= j < i ==> (#[trigger] list@[j])@ != w@,
        decreases list.len() - i,
    {
        if same_text(list[i].as_str(), w) {
            proof {
                assert(views(list@)[i as int] == w@);
            }
            return true;
        }
        i = i + 1;
    }
    proof {
        if views(list@).contains(w@) {
            let k = choose|k: int| 0 <= k < views(list@).len() && views(list@)[k] == w@;
            assert(list@[k]@ == w@);
        }
    }
    false
}

// ── What holds of words ─────────────────────────────────────────────────────

/// Whether a text is whitespace and nothing else.
pub open spec fn is_blank(s: Seq<char>) -> bool {
    forall|i: int| 0 <= i < s.len() ==> is_space(#[trigger] s[i])
}

/// The whitespace characters, by their numbers.
pub proof fn lemma_spaces(c: char)
    ensures
        is_space(c) <==> {
            let n = c as int;
            ||| 0x09 <= n <= 0x0d
            ||| n == 0x20
            ||| n == 0x85
            ||| n == 0xa0
            ||| n == 0x1680
            ||| 0x2000 <= n <= 0x200a
            ||| n == 0x2028
            ||| n == 0x2029
            ||| n == 0x202f
            ||| n == 0x205f
            ||| n == 0x3000
        },
{
}

/// Trimming takes away whitespace, at the ends and nowhere else, and leaves none
/// there.
pub proof fn lemma_trim(s: Seq<char>)
    ensures
        exists|a: Seq<char>, b: Seq<char>| #[trigger]
            is_blank(a) && #[trigger] is_blank(b) && s == a + trim(s) + b,
        trim(s).len() > 0 ==> !is_space(trim(s)[0]) && !is_space(trim(s).last()),
        exists|a: Seq<char>| #[trigger] is_blank(a) && s == a + trim_start(s),
        trim_start(s).len() > 0 ==> !is_space(trim_start(s)[0]),
        exists|b: Seq<char>| #[trigger] is_blank(b) && s == trim_end(s) + b,
        trim_end(s).len() > 0 ==> !is_space(trim_end(s).last()),
{
    lemma_skip_space(s, 0);
    lemma_drop_space(s, s.len() as int);
    let n = skip_space(s, 0);
    let t = trim_start(s);
    lemma_drop_space(t, t.len() as int);
    let m = drop_space(t, t.len() as int);
    let a = s.take(n);
    let b = t.skip(m);
    assert(is_blank(a));
    assert(is_blank(b)) by {
        assert forall|i: int| 0 <= i < b.len() implies is_space(#[trigger] b[i]) by {
            assert(b[i] == t[m + i]);
        }
    }
    assert(s =~= a + t);
    assert(s =~= (a + trim(s)) + b);
    let k = drop_space(s, s.len() as int);
    let c = s.skip(k);
    assert(is_blank(c)) by {
        assert forall|i: int| 0 <= i < c.len() implies is_space(#[trigger] c[i]) by {
            assert(c[i] == s[k + i]);
        }
    }
    assert(s =~= trim_end(s) + c);
    if trim(s).len() > 0 {
        assert(trim(s)[0] == t[0]);
        assert(trim(s).last() == t[m - 1]);
    }
}

/// A text between whitespace is what trimming gives.
pub proof fn lemma_trim_gives(a: Seq<char>, m: Seq<char>, b: Seq<char>)
    requires
        is_blank(a),
        is_blank(b),
        m.len() > 0 ==> !is_space(m[0]) && !is_space(m.last()),
    ensures
        trim(a + m + b) == m,
        m.len() > 0 ==> trim_start(a + m + b) == m + b,
{
    let s = a + m + b;
    lemma_skip_space(s, 0);
    let n = skip_space(s, 0);
    let t = trim_start(s);
    if m.len() > 0 {
        assert(s[a.len() as int] == m[0]);
        assert(n == a.len()) by {
            if n < a.len() {
                assert(s[n] == a[n]);
            }
            if n > a.len() {
                assert(is_space(s[a.len() as int]));
            }
        }
        assert(t =~= m + b);
        lemma_drop_space(t, t.len() as int);
        let e = drop_space(t, t.len() as int);
        assert(t[m.len() - 1] == m.last());
        assert(e == m.len()) by {
            if e > m.len() {
                assert(t[e - 1] == b[e - 1 - m.len()]);
            }
            if e < m.len() {
                assert(is_space(t[m.len() - 1]));
            }
        }
        assert(trim(s) =~= m);
    } else {
        assert(n == s.len()) by {
            if n < s.len() {
                if n < a.len() {
                    assert(s[n] == a[n]);
                } else {
                    assert(s[n] == b[n - a.len()]);
                }
            }
        }
        assert(t.len() == 0);
        assert(trim(s) =~= m);
    }
}

/// Blank text has no words; whitespace before the words of a text, or behind a word,
/// separates and does nothing else.
pub proof fn lemma_words_apart(c: char, w: Seq<char>, t: Seq<char>)
    requires
        is_space(c),
        is_word(w),
    ensures
        words(Seq::<char>::empty()) == Seq::<Seq<char>>::empty(),
        words(seq![c] + t) == words(t),
        words(w) == seq![w],
        words(w + seq![c] + t) == seq![w] + words(t),
{
    let e = Seq::<char>::empty();
    assert(words(e) =~= seq![]);
    let s = seq![c] + t;
    assert(s[0] == c);
    assert(skip_space(s, 0) == skip_space(s, 1));
    lemma_skip_space(s, 1);
    assert(words_from(s, 0) == words_from(s, 1));
    assert forall|j: int| 0 <= j < t.len() implies s[1 + j] == #[trigger] t[j] by {}
    lemma_words_shift(s, t, 1, 0);
    lemma_first_word(w, t);
    let u = w + seq![c] + t;
    let n = w.len() as int;
    assert(u[0] == w[0]);
    assert(u[n] == c);
    assert(skip_space(u, 0) == 0);
    lemma_word_end(u, 0);
    assert(word_end(u, 0) == n) by {
        let x = word_end(u, 0);
        if x < n {
            assert(u[x] == w[x]);
        }
    }
    assert(u.subrange(0, n) =~= w);
    assert(skip_space(u, n) == skip_space(u, n + 1));
    lemma_skip_space(u, n + 1);
    assert(words_from(u, n) == words_from(u, n + 1));
    assert forall|j: int| 0 <= j < t.len() implies u[n + 1 + j] == #[trigger] t[j] by {}
    lemma_words_shift(u, t, n + 1, 0);
}

/// Nothing joined gives nothing, one part itself, and each part more is put behind
/// the others and a separator.
pub proof fn lemma_join_last(parts: Seq<Seq<char>>, last: Seq<char>, sep: Seq<char>)
    ensures
        join(Seq::<Seq<char>>::empty(), sep) == Seq::<char>::empty(),
        join(seq![last], sep) == last,
        parts.len() > 0 ==> join(parts.push(last), sep) == join(parts, sep) + sep + last,
{
    assert(parts.push(last).drop_last() =~= parts);
}

} // verus!
