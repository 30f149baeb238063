//! The functions that makefiles can call.

use vstd::prelude::*;
use crate::number;
use crate::number::{decimal_chars, parse_usize};
use crate::order;
use crate::order::{drop_repeats, sort_words};
use crate::search;
use crate::search::{between, find_last, has_text, replace};
use crate::text;
use crate::text::{
    append,
    chars_of,
    from,
    is_text,
    join_chars,
    split_words,
    string_of,
    trimmed,
    upto,
    Dup,
};
use super::rule;
use super::rule::{apply_chars, fits, match_chars};
use super::var::{VarTable, VarTableView};

verus! {

/// A function that makefiles can call.
#[derive(Debug, Clone, Copy, PartialEq, Eq, Structural)]
pub enum Function {
    Subst,
    Patsubst,
    Strip,
    Findstring,
    Filter,
    FilterOut,
    Sort,
    Word,
    Wordlist,
    Words,
    Firstword,
    Lastword,
    Dir,
    Notdir,
    Suffix,
    Basename,
    Addsuffix,
    Addprefix,
    Join,
    Wildcard,
    Realpath,
    Abspath,
    Shell,
    Error,
    Warning,
    Info,
    Origin,
    Flavor,
    Value,
    If,
    Or,
    And,
    Foreach,
    Call,
    Eval,
}

/// The function of a name, if there is one.
pub open spec fn function_named(name: Seq<char>) -> Option<Function> {
    if name == "subst"@ {
        Some(Function::Subst)
    } else if name == "patsubst"@ {
        Some(Function::Patsubst)
    } else if name == "strip"@ {
        Some(Function::Strip)
    } else if name == "findstring"@ {
        Some(Function::Findstring)
    } else if name == "filter"@ {
        Some(Function::Filter)
    } else if name == "filter-out"@ {
        Some(Function::FilterOut)
    } else if name == "sort"@ {
        Some(Function::Sort)
    } else if name == "word"@ {
        Some(Function::Word)
    } else if name == "wordlist"@ {
        Some(Function::Wordlist)
    } else if name == "words"@ {
        Some(Function::Words)
    } else if name == "firstword"@ {
        Some(Function::Firstword)
    } else if name == "lastword"@ {
        Some(Function::Lastword)
    } else if name == "dir"@ {
        Some(Function::Dir)
    } else if name == "notdir"@ {
        Some(Function::Notdir)
    } else if name == "suffix"@ {
        Some(Function::Suffix)
    } else if name == "basename"@ {
        Some(Function::Basename)
    } else if name == "addsuffix"@ {
        Some(Function::Addsuffix)
    } else if name == "addprefix"@ {
        Some(Function::Addprefix)
    } else if name == "join"@ {
        Some(Function::Join)
    } else if name == "wildcard"@ {
        Some(Function::Wildcard)
    } else if name == "realpath"@ {
        Some(Function::Realpath)
    } else if name == "abspath"@ {
        Some(Function::Abspath)
    } else if name == "shell"@ {
        Some(Function::Shell)
    } else if name == "error"@ {
        Some(Function::Error)
    } else if name == "warning"@ {
        Some(Function::Warning)
    } else if name == "info"@ {
        Some(Function::Info)
    } else if name == "origin"@ {
        Some(Function::Origin)
    } else if name == "flavor"@ {
        Some(Function::Flavor)
    } else if name == "value"@ {
        Some(Function::Value)
    } else if name == "if"@ {
        Some(Function::If)
    } else if name == "or"@ {
        Some(Function::Or)
    } else if name == "and"@ {
        Some(Function::And)
    } else if name == "foreach"@ {
        Some(Function::Foreach)
    } else if name == "call"@ {
        Some(Function::Call)
    } else if name == "eval"@ {
        Some(Function::Eval)
    } else {
        None
    }
}

/// Finds the function of a name.
pub fn function_of(name: &[char]) -> (r: Option<Function>)
    ensures
        r == function_named(name@),
{
    if is_text(name, "subst") {
        Some(Function::Subst)
    } else if is_text(name, "patsubst") {
        Some(Function::Patsubst)
    } else if is_text(name, "strip") {
        Some(Function::Strip)
    } else if is_text(name, "findstring") {
        Some(Function::Findstring)
    } else if is_text(name, "filter") {
        Some(Function::Filter)
    } else if is_text(name, "filter-out") {
        Some(Function::FilterOut)
    } else if is_text(name, "sort") {
        Some(Function::Sort)
    } else if is_text(name, "word") {
        Some(Function::Word)
    } else if is_text(name, "wordlist") {
        Some(Function::Wordlist)
    } else if is_text(name, "words") {
        Some(Function::Words)
    } else if is_text(name, "firstword") {
        Some(Function::Firstword)
    } else if is_text(name, "lastword") {
        Some(Function::Lastword)
    } else if is_text(name, "dir") {
        Some(Function::Dir)
    } else if is_text(name, "notdir") {
        Some(Function::Notdir)
    } else if is_text(name, "suffix") {
        Some(Function::Suffix)
    } else if is_text(name, "basename") {
        Some(Function::Basename)
    } else if is_text(name, "addsuffix") {
        Some(Function::Addsuffix)
    } else if is_text(name, "addprefix") {
        Some(Function::Addprefix)
    } else if is_text(name, "join") {
        Some(Function::Join)
    } else if is_text(name, "wildcard") {
        Some(Function::Wildcard)
    } else if is_text(name, "realpath") {
        Some(Function::Realpath)
    } else if is_text(name, "abspath") {
        Some(Function::Abspath)
    } else if is_text(name, "shell") {
        Some(Function::Shell)
    } else if is_text(name, "error") {
        Some(Function::Error)
    } else if is_text(name, "warning") {
        Some(Function::Warning)
    } else if is_text(name, "info") {
        Some(Function::Info)
    } else if is_text(name, "origin") {
        Some(Function::Origin)
    } else if is_text(name, "flavor") {
        Some(Function::Flavor)
    } else if is_text(name, "value") {
        Some(Function::Value)
    } else if is_text(name, "if") {
        Some(Function::If)
    } else if is_text(name, "or") {
        Some(Function::Or)
    } else if is_text(name, "and") {
        Some(Function::And)
    } else if is_text(name, "foreach") {
        Some(Function::Foreach)
    } else if is_text(name, "call") {
        Some(Function::Call)
    } else if is_text(name, "eval") {
        Some(Function::Eval)
    } else {
        None
    }
}

/// Whether a function gets its arguments as they stand, to expand them itself.
pub open spec fn is_lazy(f: Function) -> bool {
    f == Function::If || f == Function::Or || f == Function::And || f == Function::Foreach || f
        == Function::Call || f == Function::Eval
}

/// An argument, empty where there is none.
pub open spec fn arg(args: Seq<Seq<char>>, i: int) -> Seq<char> {
    if 0 <= i < args.len() {
        args[i]
    } else {
        seq![]
    }
}

/// Looks at an argument.
pub fn argument<'a>(args: &'a [Vec<char>], i: usize, none: &'a Vec<char>) -> (r: &'a [char])
    requires
        none@.len() == 0,
    ensures
        r@ == arg(text::views(args@), i as int),
{
    if i < args.len() {
        args[i].as_slice()
    } else {
        proof {
            assert(none@ =~= seq![]);
        }
        none.as_slice()
    }
}

/// Words with one space between each two.
pub open spec fn spaced(words: Seq<Seq<char>>) -> Seq<char> {
    text::join(words, " "@)
}

/// A way to change a word.
enum Change<'a> {
    /// Where the word matches a pattern, put its stem into a replacement.
    Pattern(&'a [char], &'a [char]),
    Dir,
    Notdir,
    Suffix,
    Basename,
    /// Put something behind it.
    After(&'a [char]),
    /// Put something before it.
    Before(&'a [char]),
}

impl<'a> Change<'a> {
    spec fn of(self, w: Seq<char>) -> Seq<char> {
        match self {
            Change::Pattern(pattern, repl) => patsubst_word(pattern@, repl@, w),
            Change::Dir => dir(w),
            Change::Notdir => notdir(w),
            Change::Suffix => suffix(w),
            Change::Basename => basename(w),
            Change::After(s) => w + s@,
            Change::Before(s) => s@ + w,
        }
    }

    fn apply(&self, w: &[char]) -> (r: Vec<char>)
        ensures
            r@ == self.of(w@),
    {
        match self {
            Change::Pattern(pattern, repl) => match match_chars(w, *pattern) {
                Some(p) => apply_chars(*repl, between(w, p.0, p.1)),
                None => vstd::slice::slice_to_vec(w),
            },
            Change::Dir => dir_chars(w),
            Change::Notdir => notdir_chars(w),
            Change::Suffix => match find_last(w, '.') {
                None => Vec::new(),
                Some(i) => vstd::slice::slice_to_vec(from(w, i)),
            },
            Change::Basename => match find_last(w, '.') {
                None => vstd::slice::slice_to_vec(w),
                Some(i) => vstd::slice::slice_to_vec(upto(w, i)),
            },
            Change::After(s) => {
                let mut v = vstd::slice::slice_to_vec(w);
                append(&mut v, *s);
                v
            },
            Change::Before(s) => {
                let mut v = vstd::slice::slice_to_vec(*s);
                append(&mut v, w);
                v
            },
        }
    }
}

/// Changes each word of a text.
fn change_words(s: &[char], change: Change<'_>) -> (r: Vec<char>)
    ensures
        r@ == each_word(s@, |w: Seq<char>| change.of(w)),
{
    let words = split_words(s);
    let out = change_all(words.as_slice(), change);
    join_chars(out.as_slice(), " ")
}

fn change_all(words: &[Vec<char>], change: Change<'_>) -> (r: Vec<Vec<char>>)
    ensures
        text::views(r@) == text::views(words@).map_values(|w: Seq<char>| change.of(w)),
{
    let mut out: Vec<Vec<char>> = Vec::new();
    let mut i: usize = 0;
    while i < words.len()
        invariant
            i <= words@.len(),
            out@.len() == i,
            forall|j: int| 0 <= j < i ==> (#[trigger] out@[j])@ == change.of(words@[j]@),
        decreases words.len() - i,
    {
        out.push(change.apply(words[i].as_slice()));
        i = i + 1;
    }
    proof {
        assert(text::views(out@) =~= text::views(words@).map_values(
            |w: Seq<char>| change.of(w),
        ));
    }
    out
}

/// A test of a word.
enum Test<'a> {
    /// Whether it matches one of some patterns, or none where the flag is set.
    Matches(&'a [Vec<char>], bool),
    HasSuffix,
}

impl<'a> Test<'a> {
    spec fn of(self, w: Seq<char>) -> bool {
        match self {
            Test::Matches(patterns, invert) => matches_any(text::views(patterns@), w) != invert,
            Test::HasSuffix => w.contains('.'),
        }
    }

    fn passes(&self, w: &[char]) -> (r: bool)
        ensures
            r == self.of(w@),
    {
        match self {
            Test::Matches(patterns, invert) => any_match(*patterns, w) != *invert,
            Test::HasSuffix => search::has_char(w, '.'),
        }
    }
}

/// Keeps the words that pass a test.
fn keep_words(words: &[Vec<char>], test: Test<'_>) -> (r: Vec<Vec<char>>)
    ensures
        text::views(r@) == text::views(words@).filter(|w: Seq<char>| test.of(w)),
{
    broadcast use text::group_views;

    let ghost all = text::views(words@);
    let ghost g = |w: Seq<char>| test.of(w);
    let mut out: Vec<Vec<char>> = Vec::new();
    let mut i: usize = 0;
    proof {
        reveal(Seq::filter);
        assert(all.take(0) =~= seq![]);
    }
    while i < words.len()
        invariant
            i <= words@.len(),
            all == text::views(words@),
            g == (|w: Seq<char>| test.of(w)),
            text::views(out@) == all.take(i as int).filter(g),
        decreases words.len() - i,
    {
        proof {
            reveal(Seq::filter);
            assert(all.take(i + 1).drop_last() =~= all.take(i as int));
            assert(all.take(i + 1).last() == words@[i as int]@);
        }
        if test.passes(words[i].as_slice()) {
            out.push(words[i].dup());
        }
        i = i + 1;
    }
    proof {
        assert(all.take(i as int) =~= all);
    }
    out
}

// ── Text functions ──────────────────────────────────────────────────────────

/// `$(subst from,to,text)`
pub open spec fn subst(from: Seq<char>, to: Seq<char>, s: Seq<char>) -> Seq<char> {
    if from.len() == 0 {
        s
    } else {
        search::replaced(s, 0, from, to)
    }
}

fn fn_subst(from: &[char], to: &[char], s: &[char]) -> (r: Vec<char>)
    ensures
        r@ == subst(from@, to@, s@),
{
    if from.len() == 0 {
        vstd::slice::slice_to_vec(s)
    } else {
        replace(s, from, to)
    }
}

/// A word under `$(patsubst …)`: where it matches, the replacement with the stem
/// in the place of its `%`.
pub open spec fn patsubst_word(pattern: Seq<char>, repl: Seq<char>, w: Seq<char>) -> Seq<char> {
    match rule::stem(w, pattern) {
        Some(s) => rule::applied(repl, s),
        None => w,
    }
}

/// `$(patsubst pattern,replacement,text)`
pub open spec fn patsubst(pattern: Seq<char>, repl: Seq<char>, s: Seq<char>) -> Seq<char> {
    each_word(s, |w: Seq<char>| patsubst_word(pattern, repl, w))
}

/// `$(strip text)`
pub open spec fn strip(s: Seq<char>) -> Seq<char> {
    spaced(text::words(s))
}

/// `$(findstring find,text)`
pub open spec fn findstring(find: Seq<char>, s: Seq<char>) -> Seq<char> {
    if search::occurs(s, find) {
        find
    } else {
        seq![]
    }
}

/// Whether a word matches one of some patterns.
pub open spec fn matches_any(patterns: Seq<Seq<char>>, w: Seq<char>) -> bool {
    exists|i: int| 0 <= i < patterns.len() && rule::stem(w, #[trigger] patterns[i]) is Some
}

/// `$(filter patterns,text)`, or `$(filter-out patterns,text)` where `invert`.
pub open spec fn filtered(patterns: Seq<char>, s: Seq<char>, invert: bool) -> Seq<Seq<char>> {
    text::words(s).filter(|w: Seq<char>| matches_any(text::words(patterns), w) != invert)
}

fn any_match(patterns: &[Vec<char>], w: &[char]) -> (r: bool)
    ensures
        r == matches_any(text::views(patterns@), w@),
{
    let mut i: usize = 0;
    while i < patterns.len()
        invariant
            i <= patterns@.len(),
            forall|j: int| 0 <= j < i ==> rule::stem(w@, (#[trigger] patterns@[j])@) is None,
        decreases patterns.len() - i,
    {
        if fits(w, patterns[i].as_slice()) {
            proof {
                assert(rule::stem(w@, text::views(patterns@)[i as int]) is Some);
            }
            return true;
        }
        i = i + 1;
    }
    false
}

fn fn_filter(patterns: &[char], s: &[char], invert: bool) -> (r: Vec<char>)
    ensures
        r@ == spaced(filtered(patterns@, s@, invert)),
{
    let pats = split_words(patterns);
    let words = split_words(s);
    let test = Test::Matches(pats.as_slice(), invert);
    proof {
        assert((|w: Seq<char>| test.of(w)) =~= (|w: Seq<char>|
            matches_any(text::words(patterns@), w) != invert));
    }
    let out = keep_words(words.as_slice(), test);
    join_chars(out.as_slice(), " ")
}

/// `$(sort text)`, as words: in order, each once.
pub open spec fn sort(s: Seq<char>) -> Seq<Seq<char>> {
    order::deduped(order::sorted(text::words(s)))
}

/// The number that an argument gives, 0 where it gives none.
pub open spec fn count_arg(s: Seq<char>) -> nat {
    match number::parsed(text::trim(s)) {
        Some(n) => n,
        None => 0,
    }
}

fn count_of(s: &[char]) -> (r: usize)
    ensures
        r == count_arg(s@),
{
    match parse_usize(trimmed(s)) {
        Some(n) => n,
        None => 0,
    }
}

/// `n - 1`, but not below 0.
pub open spec fn one_less(n: nat) -> nat {
    if n == 0 {
        0
    } else {
        (n - 1) as nat
    }
}

fn less_one(n: usize) -> (r: usize)
    ensures
        r == one_less(n as nat),
{
    if n == 0 {
        0
    } else {
        n - 1
    }
}

/// `$(word n,text)`
pub open spec fn word(n: Seq<char>, s: Seq<char>) -> Seq<char> {
    arg(text::words(s), one_less(count_arg(n)) as int)
}

fn fn_word(n: &[char], s: &[char]) -> (r: Vec<char>)
    ensures
        r@ == word(n@, s@),
{
    let i = less_one(count_of(n));
    let words = split_words(s);
    let none: Vec<char> = Vec::new();
    vstd::slice::slice_to_vec(argument(words.as_slice(), i, &none))
}

/// `$(wordlist start,end,text)`, as words.
pub open spec fn wordlist(start: Seq<char>, end: Seq<char>, s: Seq<char>) -> Seq<Seq<char>> {
    let words = text::words(s);
    let a = one_less(count_arg(start));
    let b = if count_arg(end) < words.len() {
        count_arg(end)
    } else {
        words.len()
    };
    if a >= b {
        seq![]
    } else {
        words.subrange(a as int, b as int)
    }
}

fn fn_wordlist(start: &[char], end: &[char], s: &[char]) -> (r: Vec<char>)
    ensures
        r@ == spaced(wordlist(start@, end@, s@)),
{
    broadcast use text::group_views;

    let words = split_words(s);
    let a = less_one(count_of(start));
    let e = count_of(end);
    let b = if e < words.len() {
        e
    } else {
        words.len()
    };
    let mut out: Vec<Vec<char>> = Vec::new();
    let mut i: usize = a;
    while i < b
        invariant
            b <= words@.len(),
            a <= i,
            a < b ==> i <= b,
            text::views(words@) == text::words(s@),
            a < b ==> text::views(out@) == text::words(s@).subrange(a as int, i as int),
            a >= b ==> text::views(out@) == Seq::<Seq<char>>::empty(),
        decreases b - i,
    {
        out.push(words[i].dup());
        proof {
            assert(text::words(s@).subrange(a as int, i + 1) =~= text::words(s@).subrange(
                a as int,
                i as int,
            ).push(words@[i as int]@));
        }
        i = i + 1;
    }
    join_chars(out.as_slice(), " ")
}

/// The last word.
pub open spec fn lastword(s: Seq<char>) -> Seq<char> {
    arg(text::words(s), text::words(s).len() - 1)
}

fn fn_lastword(s: &[char]) -> (r: Vec<char>)
    ensures
        r@ == lastword(s@),
{
    let words = split_words(s);
    if words.len() == 0 {
        Vec::new()
    } else {
        words[words.len() - 1].dup()
    }
}

// ── File name functions ─────────────────────────────────────────────────────

/// The directory of a name: up to and with its last `/`, or `./`.
pub open spec fn dir(s: Seq<char>) -> Seq<char> {
    match s.index_of_last('/') {
        None => "./"@,
        Some(i) => s.take(i + 1),
    }
}

/// A name without its directory.
pub open spec fn notdir(s: Seq<char>) -> Seq<char> {
    match s.index_of_last('/') {
        None => s,
        Some(i) => s.skip(i + 1),
    }
}

/// Computes [`dir`].
pub fn dir_chars(s: &[char]) -> (r: Vec<char>)
    ensures
        r@ == dir(s@),
{
    match find_last(s, '/') {
        None => chars_of("./"),
        Some(i) => vstd::slice::slice_to_vec(upto(s, i + 1)),
    }
}

/// Computes [`notdir`].
pub fn notdir_chars(s: &[char]) -> (r: Vec<char>)
    ensures
        r@ == notdir(s@),
{
    match find_last(s, '/') {
        None => vstd::slice::slice_to_vec(s),
        Some(i) => vstd::slice::slice_to_vec(from(s, i + 1)),
    }
}

/// The directory of a name and the name without it make up the name, and the
/// second has no `/`.
pub proof fn lemma_dir_notdir(s: Seq<char>)
    ensures
        !notdir(s).contains('/'),
        s.contains('/') ==> dir(s) + notdir(s) == s,
        !s.contains('/') ==> dir(s) == "./"@ && notdir(s) == s,
{
    s.index_of_last_ensures('/');
    match s.index_of_last('/') {
        None => {},
        Some(i) => {
            assert(dir(s) + notdir(s) =~= s);
            if notdir(s).contains('/') {
                let k = choose|k: int| 0 <= k < notdir(s).len() && notdir(s)[k] == '/';
                assert(s[i + 1 + k] == '/');
            }
        },
    }
}

/// The suffix of a name: from its last `.` on.
pub open spec fn suffix(w: Seq<char>) -> Seq<char> {
    match w.index_of_last('.') {
        None => seq![],
        Some(i) => w.skip(i),
    }
}

/// A name without its suffix.
pub open spec fn basename(w: Seq<char>) -> Seq<char> {
    match w.index_of_last('.') {
        None => w,
        Some(i) => w.take(i),
    }
}

/// A name is its base followed by its suffix.
pub proof fn lemma_basename_suffix(w: Seq<char>)
    ensures
        basename(w) + suffix(w) == w,
{
    w.index_of_last_ensures('.');
    assert(basename(w) + suffix(w) =~= w);
}

/// The suffixes of the words that have one.
pub open spec fn suffixes(s: Seq<char>) -> Seq<Seq<char>> {
    text::words(s).filter(|w: Seq<char>| w.contains('.')).map_values(|w: Seq<char>| suffix(w))
}

fn fn_suffix(s: &[char]) -> (r: Vec<char>)
    ensures
        r@ == spaced(suffixes(s@)),
{
    let words = split_words(s);
    let with = keep_words(words.as_slice(), Test::HasSuffix);
    proof {
        assert((|w: Seq<char>| Test::HasSuffix.of(w)) =~= (|w: Seq<char>| w.contains('.')));
        assert((|w: Seq<char>| Change::Suffix.of(w)) =~= (|w: Seq<char>| suffix(w)));
    }
    let out = change_all(with.as_slice(), Change::Suffix);
    join_chars(out.as_slice(), " ")
}

/// The words of `s`, each changed by `f`.
pub open spec fn each_word(s: Seq<char>, f: spec_fn(Seq<char>) -> Seq<char>) -> Seq<char> {
    spaced(text::words(s).map_values(f))
}

/// `$(join list1,list2)`, as words: the first words of both run together, the
/// second words, and so on.
pub open spec fn joined(a: Seq<char>, b: Seq<char>) -> Seq<Seq<char>> {
    let x = text::words(a);
    let y = text::words(b);
    let n = if x.len() > y.len() {
        x.len()
    } else {
        y.len()
    };
    Seq::new(n, |i: int| arg(x, i) + arg(y, i))
}

fn fn_join(a: &[char], b: &[char]) -> (r: Vec<char>)
    ensures
        r@ == spaced(joined(a@, b@)),
{
    let x = split_words(a);
    let y = split_words(b);
    let n = if x.len() > y.len() {
        x.len()
    } else {
        y.len()
    };
    let none: Vec<char> = Vec::new();
    let mut out: Vec<Vec<char>> = Vec::new();
    let mut i: usize = 0;
    while i < n
        invariant
            i <= n,
            none@.len() == 0,
            out@.len() == i,
            n == joined(a@, b@).len(),
            text::views(x@) == text::words(a@),
            text::views(y@) == text::words(b@),
            forall|j: int| 0 <= j < i ==> (#[trigger] out@[j])@ == joined(a@, b@)[j],
        decreases n - i,
    {
        let mut v = vstd::slice::slice_to_vec(argument(x.as_slice(), i, &none));
        append(&mut v, argument(y.as_slice(), i, &none));
        out.push(v);
        i = i + 1;
    }
    proof {
        assert(text::views(out@) =~= joined(a@, b@));
    }
    join_chars(out.as_slice(), " ")
}

/// What a function gives that needs nothing but its arguments and the variables.
pub open spec fn plain(f: Function, args: Seq<Seq<char>>, vars: VarTableView) -> Seq<char> {
    let a0 = arg(args, 0);
    let a1 = arg(args, 1);
    let a2 = arg(args, 2);
    match f {
        Function::Subst => subst(a0, a1, a2),
        Function::Patsubst => patsubst(a0, a1, a2),
        Function::Strip => strip(a0),
        Function::Findstring => findstring(a0, a1),
        Function::Filter => spaced(filtered(a0, a1, false)),
        Function::FilterOut => spaced(filtered(a0, a1, true)),
        Function::Sort => spaced(sort(a0)),
        Function::Word => word(a0, a1),
        Function::Wordlist => spaced(wordlist(a0, a1, a2)),
        Function::Words => number::decimal(text::words(a0).len()),
        Function::Firstword => arg(text::words(a0), 0),
        Function::Lastword => lastword(a0),
        Function::Dir => each_word(a0, |w: Seq<char>| dir(w)),
        Function::Notdir => each_word(a0, |w: Seq<char>| notdir(w)),
        Function::Suffix => spaced(suffixes(a0)),
        Function::Basename => each_word(a0, |w: Seq<char>| basename(w)),
        Function::Addsuffix => each_word(a1, |w: Seq<char>| w + a0),
        Function::Addprefix => each_word(a1, |w: Seq<char>| a0 + w),
        Function::Join => spaced(joined(a0, a1)),
        Function::Origin => vars.origin_text(a0),
        Function::Flavor => vars.flavor_text(a0),
        Function::Value => vars.raw(a0),
        _ => seq![],
    }
}

/// Whether a function needs something from outside.
pub open spec fn is_outside(f: Function) -> bool {
    f == Function::Wildcard || f == Function::Realpath || f == Function::Abspath || f
        == Function::Shell || f == Function::Error || f == Function::Warning || f
        == Function::Info
}

/// Calls a function that needs nothing from outside.
pub fn call_plain(f: Function, args: &[Vec<char>], vars: &VarTable) -> (r: Vec<char>)
    ensures
        r@ == plain(f, text::views(args@), vars@),
{
    let none: Vec<char> = Vec::new();
    let a0 = argument(args, 0, &none);
    let a1 = argument(args, 1, &none);
    let a2 = argument(args, 2, &none);
    match f {
        Function::Subst => fn_subst(a0, a1, a2),
        Function::Patsubst => {
            let change = Change::Pattern(a0, a1);
            assert((|w: Seq<char>| change.of(w)) =~= (|w: Seq<char>|
                patsubst_word(a0@, a1@, w)));
            change_words(a2, change)
        },
        Function::Strip => join_chars(split_words(a0).as_slice(), " "),
        Function::Findstring => if has_text(a1, a0) {
            vstd::slice::slice_to_vec(a0)
        } else {
            Vec::new()
        },
        Function::Filter => fn_filter(a0, a1, false),
        Function::FilterOut => fn_filter(a0, a1, true),
        Function::Sort => join_chars(
            drop_repeats(sort_words(split_words(a0).as_slice()).as_slice()).as_slice(),
            " ",
        ),
        Function::Word => fn_word(a0, a1),
        Function::Wordlist => fn_wordlist(a0, a1, a2),
        Function::Words => {
            let words = split_words(a0);
            assert(words@.len() == text::views(words@).len());
            decimal_chars(words.len())
        },
        Function::Firstword => {
            let words = split_words(a0);
            vstd::slice::slice_to_vec(argument(words.as_slice(), 0, &none))
        },
        Function::Lastword => fn_lastword(a0),
        Function::Dir => {
            assert((|w: Seq<char>| Change::Dir.of(w)) =~= (|w: Seq<char>| dir(w)));
            change_words(a0, Change::Dir)
        },
        Function::Notdir => {
            assert((|w: Seq<char>| Change::Notdir.of(w)) =~= (|w: Seq<char>| notdir(w)));
            change_words(a0, Change::Notdir)
        },
        Function::Suffix => fn_suffix(a0),
        Function::Basename => {
            assert((|w: Seq<char>| Change::Basename.of(w)) =~= (|w: Seq<char>| basename(w)));
            change_words(a0, Change::Basename)
        },
        Function::Addsuffix => {
            let change = Change::After(a0);
            assert((|w: Seq<char>| change.of(w)) =~= (|w: Seq<char>| w + a0@));
            change_words(a1, change)
        },
        Function::Addprefix => {
            let change = Change::Before(a0);
            assert((|w: Seq<char>| change.of(w)) =~= (|w: Seq<char>| a0@ + w));
            change_words(a1, change)
        },
        Function::Join => fn_join(a0, a1),
        Function::Origin => chars_of(vars.origin_str(string_of(a0).as_str()).as_str()),
        Function::Flavor => chars_of(vars.flavor_str(string_of(a0).as_str())),
        Function::Value => chars_of(vars.raw(string_of(a0).as_str())),
        _ => Vec::new(),
    }
}

// ── What holds of the functions ─────────────────────────────────────────────

/// `$(strip …)` keeps the words, and stripping again changes nothing.
pub proof fn lemma_strip(s: Seq<char>)
    ensures
        text::words(strip(s)) == text::words(s),
        strip(strip(s)) == strip(s),
{
    text::lemma_words_are_words(s, 0);
    text::lemma_words_of_join(text::words(s));
}

/// Where each word is changed into a word, there are as many words as before,
/// each in the place of the one that it came from.
pub proof fn lemma_each_word(s: Seq<char>, f: spec_fn(Seq<char>) -> Seq<char>)
    requires
        forall|w: Seq<char>| text::is_word(w) ==> text::is_word(#[trigger] f(w)),
    ensures
        text::words(each_word(s, f)) == text::words(s).map_values(f),
{
    text::lemma_words_are_words(s, 0);
    let list = text::words(s).map_values(f);
    assert forall|n: int| 0 <= n < list.len() implies text::is_word(#[trigger] list[n]) by {
        assert(text::is_word(text::words(s)[n]));
        assert(list[n] == f(text::words(s)[n]));
    }
    text::lemma_words_of_join(list);
}

/// Every word of `$(filter …)` matches one of the patterns and no word of
/// `$(filter-out …)` does; together they hold each word of the text.
pub proof fn lemma_filter(patterns: Seq<char>, s: Seq<char>)
    ensures
        forall|n: int|
            0 <= n < filtered(patterns, s, false).len() ==> matches_any(
                text::words(patterns),
                #[trigger] filtered(patterns, s, false)[n],
            ),
        forall|n: int|
            0 <= n < filtered(patterns, s, true).len() ==> !matches_any(
                text::words(patterns),
                #[trigger] filtered(patterns, s, true)[n],
            ),
        filtered(patterns, s, false).len() + filtered(patterns, s, true).len() == text::words(
            s,
        ).len(),
        forall|w: Seq<char>| #[trigger]
            text::words(s).contains(w) <==> filtered(patterns, s, false).contains(w) || filtered(
                patterns,
                s,
                true,
            ).contains(w),
{
    let pats = text::words(patterns);
    let all = text::words(s);
    let yes = |w: Seq<char>| matches_any(pats, w) != false;
    let no = |w: Seq<char>| matches_any(pats, w) != true;
    lemma_split(all, yes, no);
}

proof fn lemma_split(
    all: Seq<Seq<char>>,
    yes: spec_fn(Seq<char>) -> bool,
    no: spec_fn(Seq<char>) -> bool,
)
    requires
        forall|w: Seq<char>| #[trigger] no(w) == !yes(w),
    ensures
        all.filter(yes).len() + all.filter(no).len() == all.len(),
        forall|n: int| 0 <= n < all.filter(yes).len() ==> yes(#[trigger] all.filter(yes)[n]),
        forall|n: int| 0 <= n < all.filter(no).len() ==> no(#[trigger] all.filter(no)[n]),
        forall|w: Seq<char>| #[trigger]
            all.contains(w) <==> all.filter(yes).contains(w) || all.filter(no).contains(w),
    decreases all.len(),
{
    reveal(Seq::filter);
    if all.len() > 0 {
        let rest = all.drop_last();
        let x = all.last();
        lemma_split(rest, yes, no);
        assert(all =~= rest.push(x));
        assert forall|w: Seq<char>| #[trigger]
            all.contains(w) <==> all.filter(yes).contains(w) || all.filter(no).contains(w) by {
            text::lemma_push_contains(rest, x);
            text::lemma_push_contains(rest.filter(yes), x);
            text::lemma_push_contains(rest.filter(no), x);
        }
    }
}

/// `$(sort …)` gives the words of the text in order, each of them once.
pub proof fn lemma_sort(s: Seq<char>)
    ensures
        order::increasing(sort(s)),
        forall|w: Seq<char>| #[trigger] sort(s).contains(w) <==> text::words(s).contains(w),
        text::words(spaced(sort(s))) == sort(s),
{
    let all = text::words(s);
    order::lemma_sorted(all);
    order::lemma_deduped(order::sorted(all));
    text::lemma_words_are_words(s, 0);
    let list = sort(s);
    assert forall|n: int| 0 <= n < list.len() implies text::is_word(#[trigger] list[n]) by {
        assert(list.contains(list[n]));
        assert(order::sorted(all).contains(list[n]));
        assert(all.contains(list[n]));
    }
    text::lemma_words_of_join(list);
}

/// `$(word n,…)` gives the word at position `n`, counted from 1; with `n` from
/// `$(words …)` it is the last word.
pub proof fn lemma_word(n: usize, s: Seq<char>)
    requires
        n >= 1,
    ensures
        word(number::decimal(n as nat), s) == arg(text::words(s), n - 1),
        n == text::words(s).len() ==> word(number::decimal(n as nat), s) == lastword(s),
{
    let d = number::decimal(n as nat);
    number::lemma_parse_decimal(n);
    lemma_decimal_trimmed(n as nat);
}

proof fn lemma_decimal_trimmed(n: nat)
    ensures
        text::trim(number::decimal(n)) == number::decimal(n),
{
    let d = number::decimal(n);
    number::lemma_decimal_digits(n);
    assert(number::is_digit(d[0]));
    assert(number::is_digit(d[d.len() - 1]));
    assert(text::skip_space(d, 0) == 0);
    assert(d.skip(0) =~= d);
    assert(text::drop_space(d, d.len() as int) == d.len());
    assert(d.take(d.len() as int) =~= d);
}

/// `$(wordlist 1,n,…)` gives the first `n` words, or all where there are fewer.
pub proof fn lemma_wordlist(n: usize, s: Seq<char>)
    requires
        n <= text::words(s).len(),
    ensures
        wordlist(number::decimal(1), number::decimal(n as nat), s) == text::words(s).take(
            n as int,
        ),
{
    number::lemma_parse_decimal(1);
    number::lemma_parse_decimal(n);
    lemma_decimal_trimmed(1);
    lemma_decimal_trimmed(n as nat);
    assert(wordlist(number::decimal(1), number::decimal(n as nat), s) =~= text::words(s).take(
        n as int,
    ));
}

/// `$(subst …)` changes nothing where the text to replace does not occur, or is
/// replaced by itself.
pub proof fn lemma_subst(find: Seq<char>, to: Seq<char>, s: Seq<char>)
    ensures
        !search::occurs(s, find) ==> subst(find, to, s) == s,
        subst(find, find, s) == s,
{
    if find.len() > 0 {
        lemma_replaced_same(s, 0, find);
        assert(s.skip(0) =~= s);
        if !search::occurs(s, find) {
            lemma_replaced_none(s, 0, find, to);
        }
    }
}

proof fn lemma_replaced_same(s: Seq<char>, i: int, find: Seq<char>)
    requires
        0 <= i <= s.len(),
        find.len() > 0,
    ensures
        search::replaced(s, i, find, find) == s.skip(i),
    decreases s.len() - i,
{
    if i < s.len() {
        if search::stands_at(s, find, i) {
            lemma_replaced_same(s, i + find.len(), find);
            assert(find + s.skip(i + find.len()) =~= s.skip(i));
        } else {
            lemma_replaced_same(s, i + 1, find);
            assert(seq![s[i]] + s.skip(i + 1) =~= s.skip(i));
        }
    } else {
        assert(s.skip(i) =~= seq![]);
    }
}

proof fn lemma_replaced_none(s: Seq<char>, i: int, find: Seq<char>, to: Seq<char>)
    requires
        0 <= i <= s.len(),
        find.len() > 0,
        !search::occurs(s, find),
    ensures
        search::replaced(s, i, find, to) == s.skip(i),
    decreases s.len() - i,
{
    if i < s.len() {
        assert(!search::stands_at(s, find, i));
        lemma_replaced_none(s, i + 1, find, to);
        assert(seq![s[i]] + s.skip(i + 1) =~= s.skip(i));
    } else {
        assert(s.skip(i) =~= seq![]);
    }
}

/// A word that does not match is left alone by `$(patsubst …)`; one that does
/// has its stem put into the replacement, and with the pattern itself as the
/// replacement it stays as it is.
pub proof fn lemma_patsubst(pattern: Seq<char>, repl: Seq<char>, w: Seq<char>)
    ensures
        rule::stem(w, pattern) is None ==> patsubst_word(pattern, repl, w) == w,
        patsubst_word(pattern, pattern, w) == w,
{
    match rule::stem(w, pattern) {
        Some(x) => {
            if pattern.contains('%') {
                rule::lemma_match_iff_applied(w, pattern, x);
            } else {
                rule::lemma_match_plain(w, pattern, x);
            }
        },
        None => {},
    }
}

/// `$(join …)` has as many words as the longer list, and pairs up the words of
/// both; with an empty second list it gives the first.
pub proof fn lemma_join(a: Seq<char>, b: Seq<char>)
    ensures
        joined(a, b).len() == (if text::words(a).len() > text::words(b).len() {
            text::words(a).len()
        } else {
            text::words(b).len()
        }),
        text::words(b).len() == 0 ==> joined(a, b) == text::words(a),
        text::words(a).len() == 0 ==> joined(a, b) == text::words(b),
        text::words(spaced(joined(a, b))) == joined(a, b),
{
    let x = text::words(a);
    let y = text::words(b);
    let list = joined(a, b);
    if y.len() == 0 {
        assert forall|i: int| 0 <= i < x.len() implies #[trigger] list[i] == x[i] by {
            assert(x[i] + Seq::<char>::empty() =~= x[i]);
        }
        assert(list =~= x);
    }
    if x.len() == 0 {
        assert forall|i: int| 0 <= i < y.len() implies #[trigger] list[i] == y[i] by {
            assert(Seq::<char>::empty() + y[i] =~= y[i]);
        }
        assert(list =~= y);
    }
    text::lemma_words_are_words(a, 0);
    text::lemma_words_are_words(b, 0);
    assert forall|n: int| 0 <= n < list.len() implies text::is_word(#[trigger] list[n]) by {
        let w = list[n];
        assert(w == arg(x, n) + arg(y, n));
        if n < x.len() {
            assert(text::is_word(x[n]));
        }
        if n < y.len() {
            assert(text::is_word(y[n]));
        }
    }
    text::lemma_words_of_join(list);
}

// ── What each function gives ────────────────────────────────────────────────

/// What is replaced behind a position depends on what stands behind it alone.
pub proof fn lemma_replaced_shift(
    s: Seq<char>,
    t: Seq<char>,
    n: int,
    i: int,
    find: Seq<char>,
    to: Seq<char>,
)
    requires
        0 <= n,
        0 <= i,
        find.len() > 0,
        s.len() == n + t.len(),
        s.skip(n) == t,
    ensures
        search::replaced(s, n + i, find, to) == search::replaced(t, i, find, to),
    decreases t.len() - i,
{
    if i < t.len() {
        assert(s[n + i] == s.skip(n)[i]);
        assert(search::stands_at(s, find, n + i) == search::stands_at(t, find, i)) by {
            if i + find.len() <= t.len() {
                assert(s.subrange(n + i, n + i + find.len()) =~= t.subrange(i, i + find.len()));
            }
        }
        if search::stands_at(t, find, i) {
            lemma_replaced_shift(s, t, n, i + find.len(), find, to);
        } else {
            lemma_replaced_shift(s, t, n, i + 1, find, to);
        }
    }
}

/// What no occurrence stands in stays as it is.
pub proof fn lemma_replaced_before(
    s: Seq<char>,
    i: int,
    n: int,
    find: Seq<char>,
    to: Seq<char>,
)
    requires
        0 <= i <= n <= s.len(),
        find.len() > 0,
        forall|j: int| i <= j < n ==> !#[trigger] search::stands_at(s, find, j),
    ensures
        search::replaced(s, i, find, to) == s.subrange(i, n) + search::replaced(s, n, find, to),
    decreases n - i,
{
    if i < n {
        assert(!search::stands_at(s, find, i));
        lemma_replaced_before(s, i + 1, n, find, to);
        assert(seq![s[i]] + (s.subrange(i + 1, n) + search::replaced(s, n, find, to)) =~= s.subrange(
            i,
            n,
        ) + search::replaced(s, n, find, to));
    } else {
        assert(s.subrange(i, n) + search::replaced(s, n, find, to) =~= search::replaced(
            s,
            n,
            find,
            to,
        ));
    }
}

/// `$(subst …)` puts the replacement, which may be empty, in the place of the first
/// occurrence, keeps what stands before it, and goes on behind it. Text without an
/// occurrence stays as it is, and so does all text where nothing is looked for.
pub proof fn lemma_subst_first(
    find: Seq<char>,
    to: Seq<char>,
    a: Seq<char>,
    rest: Seq<char>,
    vars: VarTableView,
)
    requires
        find.len() > 0,
        forall|i: int|
            0 <= i < a.len() ==> #[trigger] (a + find).subrange(i, i + find.len()) != find,
    ensures
        plain(Function::Subst, seq![find, to, a + find + rest], vars) == a + to + plain(
            Function::Subst,
            seq![find, to, rest],
            vars,
        ),
{
    let s = a + find + rest;
    let n = a.len() as int;
    assert forall|j: int| 0 <= j < n implies !#[trigger] search::stands_at(s, find, j) by {
        assert(s.subrange(j, j + find.len()) =~= (a + find).subrange(j, j + find.len()));
    }
    lemma_replaced_before(s, 0, n, find, to);
    assert(s.subrange(0, n) =~= a);
    assert(s.subrange(n, n + find.len()) =~= find);
    assert(search::stands_at(s, find, n));
    assert(s.skip(n + find.len()) =~= rest);
    lemma_replaced_shift(s, rest, n + find.len(), 0, find, to);
    assert(a + (to + subst(find, to, rest)) =~= a + to + subst(find, to, rest));
}

/// `$(subst …)` changes nothing where the text to find is empty or occurs nowhere.
pub proof fn lemma_subst_nothing(
    find: Seq<char>,
    to: Seq<char>,
    s: Seq<char>,
    vars: VarTableView,
)
    requires
        find.len() == 0 || forall|i: int|
            0 <= i <= s.len() - find.len() ==> #[trigger] s.subrange(i, i + find.len()) != find,
    ensures
        plain(Function::Subst, seq![find, to, s], vars) == s,
{
    if find.len() > 0 {
        assert forall|j: int| 0 <= j < s.len() implies !#[trigger] search::stands_at(
            s,
            find,
            j,
        ) by {}
        lemma_replaced_before(s, 0, s.len() as int, find, to);
        assert(s.subrange(0, s.len() as int) =~= s);
        assert(s + Seq::<char>::empty() =~= s);
    }
}

/// `$(findstring …)` gives back what it looks for exactly where that stands
/// somewhere in the text.
pub proof fn lemma_findstring(
    find: Seq<char>,
    a: Seq<char>,
    b: Seq<char>,
    s: Seq<char>,
    vars: VarTableView,
)
    ensures
        plain(Function::Findstring, seq![find, a + find + b], vars) == find,
        (forall|i: int|
            0 <= i <= s.len() - find.len() ==> #[trigger] s.subrange(i, i + find.len()) != find)
            ==> plain(Function::Findstring, seq![find, s], vars) == Seq::<char>::empty(),
{
    let t = a + find + b;
    assert(t.subrange(a.len() as int, (a.len() + find.len()) as int) =~= find);
    assert(search::stands_at(t, find, a.len() as int));
    if forall|i: int|
        0 <= i <= s.len() - find.len() ==> #[trigger] s.subrange(i, i + find.len()) != find {
        if search::occurs(s, find) {
            let i = choose|i: int| search::stands_at(s, find, i);
            assert(s.subrange(i, i + find.len()) == find);
        }
    }
}

/// What stands for a list of words once one more was put before it.
pub open spec fn led(first: Seq<char>, rest: Seq<char>, more: bool) -> Seq<char> {
    if more {
        first + seq![' '] + rest
    } else {
        first
    }
}

proof fn lemma_each_first(
    w: Seq<char>,
    c: char,
    t: Seq<char>,
    f: spec_fn(Seq<char>) -> Seq<char>,
)
    requires
        text::is_word(w),
        text::is_space(c),
    ensures
        each_word(w + seq![c] + t, f) == led(f(w), each_word(t, f), text::words(t).len() > 0),
        each_word(w, f) == f(w),
        each_word(Seq::<char>::empty(), f) == Seq::<char>::empty(),
{
    text::lemma_words_apart(c, w, t);
    reveal_strlit(" ");
    let rest = text::words(t).map_values(f);
    assert(text::words(w + seq![c] + t).map_values(f) =~= seq![f(w)] + rest);
    assert(text::words(w).map_values(f) =~= seq![f(w)]);
    assert(" "@ =~= seq![' ']);
    if text::words(t).len() > 0 {
        text::lemma_join_first(f(w), rest, " "@);
    } else {
        assert(seq![f(w)] + rest =~= seq![f(w)]);
    }
}

/// `$(strip …)` keeps the words, with one space between each two.
pub proof fn lemma_strip_words(w: Seq<char>, c: char, t: Seq<char>, vars: VarTableView)
    requires
        text::is_word(w),
        text::is_space(c),
    ensures
        plain(Function::Strip, seq![Seq::<char>::empty()], vars) == Seq::<char>::empty(),
        plain(Function::Strip, seq![w], vars) == w,
        plain(Function::Strip, seq![seq![c] + t], vars) == plain(Function::Strip, seq![t], vars),
        plain(Function::Strip, seq![w + seq![c] + t], vars) == led(
            w,
            plain(Function::Strip, seq![t], vars),
            text::words(t).len() > 0,
        ),
{
    let id = |x: Seq<char>| x;
    lemma_each_first(w, c, t, id);
    text::lemma_words_apart(c, w, t);
    assert(text::words(t).map_values(id) =~= text::words(t));
    assert(text::words(w + seq![c] + t).map_values(id) =~= text::words(w + seq![c] + t));
}

/// What `$(patsubst …)` makes of a word `w`: where it is some text between `pre`
/// and `post`, that text between `before` and `after`, and otherwise the word.
pub open spec fn substitutes(
    pre: Seq<char>,
    post: Seq<char>,
    before: Seq<char>,
    after: Seq<char>,
    w: Seq<char>,
    v: Seq<char>,
) -> bool {
    if exists|x: Seq<char>| framed(pre, x, post) == w {
        exists|x: Seq<char>| framed(pre, x, post) == w && v == #[trigger] framed(before, x, after)
    } else {
        v == w
    }
}

/// A text between two others.
pub open spec fn framed(pre: Seq<char>, x: Seq<char>, post: Seq<char>) -> Seq<char> {
    pre + x + post
}

proof fn lemma_framed_once(pre: Seq<char>, x: Seq<char>, y: Seq<char>, post: Seq<char>)
    requires
        framed(pre, x, post) == framed(pre, y, post),
    ensures
        x == y,
{
    let s = framed(pre, x, post);
    let t = framed(pre, y, post);
    assert(s.len() == pre.len() + x.len() + post.len());
    assert(t.len() == pre.len() + y.len() + post.len());
    assert forall|i: int| 0 <= i < x.len() implies x[i] == y[i] by {
        assert(s[pre.len() + i] == x[i]);
        assert(t[pre.len() + i] == y[i]);
    }
    assert(x =~= y);
}

/// `$(patsubst …)` changes each word by itself: one that fits the pattern becomes the
/// replacement with what `%` stood for, and any other stays.
pub proof fn lemma_patsubst_words(
    pre: Seq<char>,
    post: Seq<char>,
    before: Seq<char>,
    after: Seq<char>,
    w: Seq<char>,
    v: Seq<char>,
    c: char,
    t: Seq<char>,
    vars: VarTableView,
)
    requires
        !pre.contains('%'),
        !before.contains('%'),
        text::is_word(w),
        text::is_space(c),
        substitutes(pre, post, before, after, w, v),
    ensures
        ({
            let p = pre + seq!['%'] + post;
            let q = before + seq!['%'] + after;
            let rest = plain(Function::Patsubst, seq![p, q, t], vars);
            &&& plain(Function::Patsubst, seq![p, q, Seq::<char>::empty()], vars) == Seq::<
                char,
            >::empty()
            &&& plain(Function::Patsubst, seq![p, q, seq![c] + t], vars) == rest
            &&& plain(Function::Patsubst, seq![p, q, w], vars) == v
            &&& plain(Function::Patsubst, seq![p, q, w + seq![c] + t], vars) == led(
                v,
                rest,
                text::words(t).len() > 0,
            )
        }),
{
    let p = pre + seq!['%'] + post;
    let q = before + seq!['%'] + after;
    let f = |x: Seq<char>| patsubst_word(p, q, x);
    lemma_each_first(w, c, t, f);
    text::lemma_words_apart(c, w, t);
    if exists|x: Seq<char>| framed(pre, x, post) == w {
        let x = choose|x: Seq<char>|
            framed(pre, x, post) == w && v == #[trigger] framed(before, x, after);
        rule::lemma_pattern_parts(pre, post, x);
        rule::lemma_pattern_parts(before, after, x);
    } else {
        assert forall|x: Seq<char>| w != #[trigger] (pre + x) + post by {
            assert(framed(pre, x, post) != w);
        }
        rule::lemma_no_match(w, pre, post);
    }
    assert(f(w) == v);
}

/// Without `%` in the pattern `$(patsubst …)` replaces the words that are the pattern.
pub proof fn lemma_patsubst_whole(
    p: Seq<char>,
    q: Seq<char>,
    w: Seq<char>,
    vars: VarTableView,
)
    requires
        !p.contains('%'),
        !q.contains('%'),
        text::is_word(w),
    ensures
        plain(Function::Patsubst, seq![p, q, w], vars) == (if w == p {
            q
        } else {
            w
        }),
{
    let f = |x: Seq<char>| patsubst_word(p, q, x);
    lemma_each_first(w, ' ', seq![], f);
    rule::lemma_match_plain(w, p, seq![]);
    rule::lemma_match_plain(w, q, seq![]);
    rule::lemma_plain_stem(p);
}

/// Whether a word is what a pattern says: the same text, or, where the pattern has a
/// `%`, any text in the place of the first.
pub open spec fn is_like(w: Seq<char>, p: Seq<char>) -> bool {
    if p.contains('%') {
        exists|pre: Seq<char>, x: Seq<char>, post: Seq<char>|
            !pre.contains('%') && p == pre + seq!['%'] + post && w == #[trigger] framed(
                pre,
                x,
                post,
            )
    } else {
        w == p
    }
}

proof fn lemma_is_like(w: Seq<char>, p: Seq<char>)
    ensures
        rule::stem(w, p) is Some <==> is_like(w, p),
{
    if p.contains('%') {
        p.index_of_first_ensures('%');
        let n = p.index_of_first('%')->Some_0;
        let pre = p.take(n);
        let post = p.skip(n + 1);
        assert(p =~= pre + seq!['%'] + post);
        assert(!pre.contains('%')) by {
            if pre.contains('%') {
                let k = choose|k: int| 0 <= k < pre.len() && pre[k] == '%';
                assert(p[k] == '%');
            }
        }
        if let Some(x) = rule::stem(w, p) {
            rule::lemma_match_iff_applied(w, p, x);
            assert(w == framed(pre, x, post));
        }
        if is_like(w, p) {
            let (a, x, b) = choose|a: Seq<char>, x: Seq<char>, b: Seq<char>|
                !a.contains('%') && p == a + seq!['%'] + b && w == #[trigger] framed(a, x, b);
            rule::lemma_pattern_parts(a, b, x);
        }
    } else {
        rule::lemma_match_plain(w, p, seq![]);
    }
}

proof fn lemma_filter_first(
    w: Seq<char>,
    rest: Seq<Seq<char>>,
    f: spec_fn(Seq<char>) -> bool,
)
    ensures
        (seq![w] + rest).filter(f) == (if f(w) {
            seq![w]
        } else {
            Seq::<Seq<char>>::empty()
        }) + rest.filter(f),
    decreases rest.len(),
{
    reveal(Seq::filter);
    let all = seq![w] + rest;
    let head = if f(w) {
        seq![w]
    } else {
        Seq::<Seq<char>>::empty()
    };
    if rest.len() == 0 {
        assert(all.drop_last() =~= seq![]);
        assert(all.drop_last().filter(f) =~= seq![]);
        assert(all.last() == w);
        assert(all.filter(f) =~= head + rest.filter(f));
    } else {
        lemma_filter_first(w, rest.drop_last(), f);
        assert(all.drop_last() =~= seq![w] + rest.drop_last());
        assert(all.last() == rest.last());
        assert(all.filter(f) =~= head + rest.filter(f));
    }
}

proof fn lemma_filtered_words(patterns: Seq<char>, s: Seq<char>, invert: bool)
    ensures
        text::words(spaced(filtered(patterns, s, invert))) == filtered(patterns, s, invert),
{
    let f = |w: Seq<char>| matches_any(text::words(patterns), w) != invert;
    let list = filtered(patterns, s, invert);
    text::lemma_words_are_words(s, 0);
    broadcast use vstd::seq_lib::group_filter_ensures;
    assert forall|n: int| 0 <= n < list.len() implies text::is_word(#[trigger] list[n]) by {
        lemma_filter_member(text::words(s), f, n);
        let m = choose|m: int| 0 <= m < text::words(s).len() && text::words(s)[m] == list[n];
        assert(text::is_word(text::words(s)[m]));
    }
    text::lemma_words_of_join(list);
}

proof fn lemma_filter_member(all: Seq<Seq<char>>, f: spec_fn(Seq<char>) -> bool, n: int)
    requires
        0 <= n < all.filter(f).len(),
    ensures
        all.contains(all.filter(f)[n]),
    decreases all.len(),
{
    reveal(Seq::filter);
    let rest = all.drop_last();
    if all.len() > 0 {
        assert(all =~= rest.push(all.last()));
        text::lemma_push_contains(rest, all.last());
        if n < rest.filter(f).len() {
            lemma_filter_member(rest, f, n);
        }
    }
}

proof fn lemma_filtered_first(
    patterns: Seq<char>,
    w: Seq<char>,
    c: char,
    t: Seq<char>,
    invert: bool,
)
    requires
        text::is_word(w),
        text::is_space(c),
    ensures
        filtered(patterns, w + seq![c] + t, invert) == (if matches_any(text::words(patterns), w)
            != invert {
            seq![w]
        } else {
            Seq::<Seq<char>>::empty()
        }) + filtered(patterns, t, invert),
        filtered(patterns, seq![c] + t, invert) == filtered(patterns, t, invert),
        filtered(patterns, Seq::<char>::empty(), invert) == Seq::<Seq<char>>::empty(),
{
    let f = |x: Seq<char>| matches_any(text::words(patterns), x) != invert;
    text::lemma_words_apart(c, w, t);
    lemma_filter_first(w, text::words(t), f);
    reveal(Seq::filter);
    assert(Seq::<Seq<char>>::empty().filter(f) =~= seq![]);
}

/// `$(filter …)` keeps the words that are like one of the patterns and
/// `$(filter-out …)` the others, each in its place.
pub proof fn lemma_filter_words(
    patterns: Seq<char>,
    w: Seq<char>,
    c: char,
    t: Seq<char>,
    vars: VarTableView,
)
    requires
        text::is_word(w),
        text::is_space(c),
    ensures
        ({
            let like = exists|i: int|
                0 <= i < text::words(patterns).len() && is_like(
                    w,
                    #[trigger] text::words(patterns)[i],
                );
            let one = seq![w];
            let none = Seq::<Seq<char>>::empty();
            let kept = text::words(plain(Function::Filter, seq![patterns, t], vars));
            let left = text::words(plain(Function::FilterOut, seq![patterns, t], vars));
            let s = w + seq![c] + t;
            &&& text::words(plain(Function::Filter, seq![patterns, s], vars)) == (if like {
                one
            } else {
                none
            }) + kept
            &&& text::words(plain(Function::FilterOut, seq![patterns, s], vars)) == (if like {
                none
            } else {
                one
            }) + left
            &&& plain(Function::Filter, seq![patterns, Seq::<char>::empty()], vars) == Seq::<
                char,
            >::empty()
            &&& plain(Function::FilterOut, seq![patterns, Seq::<char>::empty()], vars) == Seq::<
                char,
            >::empty()
            &&& plain(Function::Filter, seq![patterns, seq![c] + t], vars) == plain(
                Function::Filter,
                seq![patterns, t],
                vars,
            )
            &&& plain(Function::FilterOut, seq![patterns, seq![c] + t], vars) == plain(
                Function::FilterOut,
                seq![patterns, t],
                vars,
            )
        }),
{
    let pats = text::words(patterns);
    assert forall|i: int| 0 <= i < pats.len() implies (rule::stem(w, #[trigger] pats[i]) is Some
        <==> is_like(w, pats[i])) by {
        lemma_is_like(w, pats[i]);
    }
    lemma_filter_step(patterns, w, c, t, vars, false);
    lemma_filter_step(patterns, w, c, t, vars, true);
}

proof fn lemma_filter_step(
    patterns: Seq<char>,
    w: Seq<char>,
    c: char,
    t: Seq<char>,
    vars: VarTableView,
    invert: bool,
)
    requires
        text::is_word(w),
        text::is_space(c),
    ensures
        ({
            let f = if invert {
                Function::FilterOut
            } else {
                Function::Filter
            };
            let none = Seq::<char>::empty();
            &&& text::words(plain(f, seq![patterns, w + seq![c] + t], vars)) == (if matches_any(
                text::words(patterns),
                w,
            ) != invert {
                seq![w]
            } else {
                Seq::<Seq<char>>::empty()
            }) + text::words(plain(f, seq![patterns, t], vars))
            &&& plain(f, seq![patterns, none], vars) == none
            &&& plain(f, seq![patterns, seq![c] + t], vars) == plain(f, seq![patterns, t], vars)
        }),
{
    lemma_filtered_first(patterns, w, c, t, invert);
    lemma_filtered_words(patterns, w + seq![c] + t, invert);
    lemma_filtered_words(patterns, t, invert);
}

/// `$(word n,…)` gives the word at place `n`, counted from 1, and nothing where there
/// is none; `$(words …)` counts them, and `$(firstword …)` and `$(lastword …)` give
/// those at the ends.
pub proof fn lemma_word_places(n: usize, s: Seq<char>, vars: VarTableView)
    requires
        n >= 1,
    ensures
        ({
            let all = text::words(s);
            let none = Seq::<char>::empty();
            &&& plain(Function::Word, seq![number::decimal(n as nat), s], vars) == (if n
                <= all.len() {
                all[n - 1]
            } else {
                none
            })
            &&& plain(Function::Words, seq![s], vars) == number::decimal(all.len())
            &&& plain(Function::Firstword, seq![s], vars) == (if all.len() > 0 {
                all[0]
            } else {
                none
            })
            &&& plain(Function::Lastword, seq![s], vars) == (if all.len() > 0 {
                all[all.len() - 1]
            } else {
                none
            })
        }),
{
    lemma_word(n, s);
}

/// `$(wordlist a,b,…)` gives the words from place `a` up to place `b`, with as many as
/// there are.
pub proof fn lemma_wordlist_places(a: usize, b: usize, s: Seq<char>, vars: VarTableView)
    requires
        a >= 1,
    ensures
        ({
            let all = text::words(s);
            let given = text::words(
                plain(
                    Function::Wordlist,
                    seq![number::decimal(a as nat), number::decimal(b as nat), s],
                    vars,
                ),
            );
            &&& forall|i: int| 0 <= i < given.len() ==> #[trigger] given[i] == all[a - 1 + i]
            &&& given.len() == (if b <= all.len() && a <= b {
                b - a + 1
            } else if b > all.len() && a <= all.len() {
                all.len() - a + 1
            } else {
                0
            })
        }),
{
    number::lemma_parse_decimal(a);
    number::lemma_parse_decimal(b);
    lemma_decimal_trimmed(a as nat);
    lemma_decimal_trimmed(b as nat);
    let list = wordlist(number::decimal(a as nat), number::decimal(b as nat), s);
    text::lemma_words_are_words(s, 0);
    assert forall|n: int| 0 <= n < list.len() implies text::is_word(#[trigger] list[n]) by {
        assert(list[n] == text::words(s)[a - 1 + n]);
    }
    text::lemma_words_of_join(list);
}

/// What the functions that change names do to one name: the directory is all up to
/// the last `/`, the suffix all from the last `.` on.
pub proof fn lemma_name_parts(a: Seq<char>, b: Seq<char>, w: Seq<char>)
    ensures
        !b.contains('/') ==> dir(a + seq!['/'] + b) == a + seq!['/'] && notdir(a + seq!['/'] + b)
            == b,
        !w.contains('/') ==> dir(w) == seq!['.', '/'] && notdir(w) == w,
        !b.contains('.') ==> suffix(a + seq!['.'] + b) == seq!['.'] + b && basename(
            a + seq!['.'] + b,
        ) == a,
        !w.contains('.') ==> suffix(w) == Seq::<char>::empty() && basename(w) == w,
{
    reveal_strlit("./");
    assert("./"@ =~= seq!['.', '/']);
    w.index_of_last_ensures('/');
    w.index_of_last_ensures('.');
    lemma_last_at(a, b, '/');
    lemma_last_at(a, b, '.');
    let n = a.len() as int;
    let s = a + seq!['/'] + b;
    assert(s.take(n + 1) =~= a + seq!['/']);
    assert(s.skip(n + 1) =~= b);
    let t = a + seq!['.'] + b;
    assert(t.skip(n) =~= seq!['.'] + b);
    assert(t.take(n) =~= a);
}

proof fn lemma_last_at(a: Seq<char>, b: Seq<char>, c: char)
    ensures
        !b.contains(c) ==> (a + seq![c] + b).index_of_last(c) == Some(a.len() as int),
{
    let s = a + seq![c] + b;
    s.index_of_last_ensures(c);
    assert(s[a.len() as int] == c);
    if !b.contains(c) {
        let i = s.index_of_last(c)->Some_0;
        if i > a.len() {
            assert(b[i - a.len() - 1] == c);
        }
    }
}

/// `$(dir …)`, `$(notdir …)`, `$(basename …)`, `$(addsuffix …)` and `$(addprefix …)`
/// change each word by itself.
pub proof fn lemma_names_one_by_one(
    a: Seq<char>,
    w: Seq<char>,
    c: char,
    t: Seq<char>,
    vars: VarTableView,
)
    requires
        text::is_word(w),
        text::is_space(c),
    ensures
        ({
            let s = w + seq![c] + t;
            let more = text::words(t).len() > 0;
            let none = Seq::<char>::empty();
            &&& plain(Function::Dir, seq![s], vars) == led(
                dir(w),
                plain(Function::Dir, seq![t], vars),
                more,
            )
            &&& plain(Function::Notdir, seq![s], vars) == led(
                notdir(w),
                plain(Function::Notdir, seq![t], vars),
                more,
            )
            &&& plain(Function::Basename, seq![s], vars) == led(
                basename(w),
                plain(Function::Basename, seq![t], vars),
                more,
            )
            &&& plain(Function::Addsuffix, seq![a, s], vars) == led(
                w + a,
                plain(Function::Addsuffix, seq![a, t], vars),
                more,
            )
            &&& plain(Function::Addprefix, seq![a, s], vars) == led(
                a + w,
                plain(Function::Addprefix, seq![a, t], vars),
                more,
            )
            &&& plain(Function::Dir, seq![w], vars) == dir(w)
            &&& plain(Function::Notdir, seq![w], vars) == notdir(w)
            &&& plain(Function::Basename, seq![w], vars) == basename(w)
            &&& plain(Function::Addsuffix, seq![a, w], vars) == w + a
            &&& plain(Function::Addprefix, seq![a, w], vars) == a + w
            &&& plain(Function::Addsuffix, seq![a, none], vars) == none
            &&& plain(Function::Addprefix, seq![a, none], vars) == none
        }),
{
    lemma_each_first(w, c, t, |x: Seq<char>| dir(x));
    lemma_each_first(w, c, t, |x: Seq<char>| notdir(x));
    lemma_each_first(w, c, t, |x: Seq<char>| basename(x));
    lemma_each_first(w, c, t, |x: Seq<char>| x + a);
    lemma_each_first(w, c, t, |x: Seq<char>| a + x);
}

/// `$(suffix …)` gives the suffixes of the words that have one, and passes over the
/// others.
pub proof fn lemma_suffix_words(
    a: Seq<char>,
    b: Seq<char>,
    w: Seq<char>,
    c: char,
    t: Seq<char>,
    vars: VarTableView,
)
    requires
        text::is_space(c),
        text::is_word(w),
        text::is_word(a + seq!['.'] + b),
        !b.contains('.'),
    ensures
        ({
            let rest = text::words(plain(Function::Suffix, seq![t], vars));
            let s = a + seq!['.'] + b + seq![c] + t;
            &&& text::words(plain(Function::Suffix, seq![s], vars)) == seq![seq!['.'] + b] + rest
            &&& !w.contains('.') ==> text::words(
                plain(Function::Suffix, seq![w + seq![c] + t], vars),
            ) == rest
            &&& plain(Function::Suffix, seq![Seq::<char>::empty()], vars) == Seq::<char>::empty()
        }),
{
    let v = a + seq!['.'] + b;
    let f = |x: Seq<char>| x.contains('.');
    let g = |x: Seq<char>| suffix(x);
    text::lemma_words_apart(c, v, t);
    text::lemma_words_apart(c, w, t);
    lemma_filter_first(v, text::words(t), f);
    lemma_filter_first(w, text::words(t), f);
    assert(v[a.len() as int] == '.');
    assert(v.contains('.'));
    lemma_name_parts(a, b, v);
    lemma_suffixes_words(v + seq![c] + t);
    lemma_suffixes_words(w + seq![c] + t);
    lemma_suffixes_words(t);
    reveal(Seq::filter);
    let rest = text::words(t).filter(f);
    assert((seq![v] + rest).map_values(g) =~= seq![seq!['.'] + b] + rest.map_values(g));
    if !w.contains('.') {
        assert(Seq::<Seq<char>>::empty() + rest =~= rest);
    }
    assert(Seq::<Seq<char>>::empty().filter(f).map_values(g) =~= seq![]);
}

proof fn lemma_suffixes_words(s: Seq<char>)
    ensures
        text::words(spaced(suffixes(s))) == suffixes(s),
{
    let f = |x: Seq<char>| x.contains('.');
    let list = suffixes(s);
    text::lemma_words_are_words(s, 0);
    broadcast use vstd::seq_lib::group_filter_ensures;
    assert forall|n: int| 0 <= n < list.len() implies text::is_word(#[trigger] list[n]) by {
        let x = text::words(s).filter(f)[n];
        lemma_filter_member(text::words(s), f, n);
        let m = choose|m: int| 0 <= m < text::words(s).len() && text::words(s)[m] == x;
        assert(text::is_word(text::words(s)[m]));
        assert(f(x));
        x.index_of_last_ensures('.');
        let i = x.index_of_last('.')->Some_0;
        assert(list[n] == x.skip(i));
        assert forall|j: int| 0 <= j < x.skip(i).len() implies !text::is_space(
            #[trigger] x.skip(i)[j],
        ) by {
            assert(x.skip(i)[j] == x[i + j]);
        }
    }
    text::lemma_words_of_join(list);
}

/// `$(join …)` runs the first words of both lists together and goes on with the rest
/// of both.
pub proof fn lemma_join_words(
    w: Seq<char>,
    v: Seq<char>,
    c: char,
    t: Seq<char>,
    u: Seq<char>,
    vars: VarTableView,
)
    requires
        text::is_word(w),
        text::is_word(v),
        text::is_space(c),
    ensures
        ({
            let none = Seq::<char>::empty();
            &&& text::words(
                plain(Function::Join, seq![w + seq![c] + t, v + seq![c] + u], vars),
            ) == seq![w + v] + text::words(plain(Function::Join, seq![t, u], vars))
            &&& text::words(plain(Function::Join, seq![t, none], vars)) == text::words(t)
            &&& text::words(plain(Function::Join, seq![none, u], vars)) == text::words(u)
        }),
{
    let none = Seq::<char>::empty();
    let s = w + seq![c] + t;
    let r = v + seq![c] + u;
    text::lemma_words_apart(c, w, t);
    text::lemma_words_apart(c, v, u);
    lemma_join(s, r);
    lemma_join(t, u);
    lemma_join(t, none);
    lemma_join(none, u);
    assert(joined(s, r) =~= seq![w + v] + joined(t, u)) by {
        let a = joined(s, r);
        let b = seq![w + v] + joined(t, u);
        assert(a.len() == b.len());
        assert forall|i: int| 0 <= i < a.len() implies a[i] == b[i] by {
            if i > 0 {
                assert(arg(text::words(s), i) == arg(text::words(t), i - 1));
                assert(arg(text::words(r), i) == arg(text::words(u), i - 1));
            }
        }
    }
}

/// `$(value …)`, `$(flavor …)` and `$(origin …)` tell of the variable itself.
pub proof fn lemma_of_variables(name: Seq<char>, vars: VarTableView)
    ensures
        ({
            let args = seq![name];
            let v = vars.vars[name];
            let known = vars.vars.dom().contains(name);
            &&& plain(Function::Value, args, vars) == (if known {
                v.raw
            } else {
                Seq::<char>::empty()
            })
            &&& plain(Function::Flavor, args, vars) == (if !known {
                "undefined"@
            } else if v.flavor is Simple {
                "simple"@
            } else {
                "recursive"@
            })
            &&& plain(Function::Origin, args, vars) == (if !known {
                "undefined"@
            } else {
                match v.origin {
                    super::var::Origin::Default => "default"@,
                    super::var::Origin::Environment => "environment"@,
                    super::var::Origin::File => "file"@,
                    super::var::Origin::Override => "override"@,
                    super::var::Origin::CommandLine => "command line"@,
                    super::var::Origin::Automatic => "automatic"@,
                }
            })
        }),
{
}

/// `$(sort …)` gives each word once, and each before those that follow it in the
/// order.
pub proof fn lemma_sort_words(s: Seq<char>, vars: VarTableView)
    ensures
        ({
            let given = text::words(plain(Function::Sort, seq![s], vars));
            &&& forall|i: int, j: int|
                0 <= i < j < given.len() ==> order::less(#[trigger] given[i], #[trigger] given[j])
            &&& forall|w: Seq<char>| #[trigger]
                given.contains(w) <==> text::words(s).contains(w)
        }),
{
    lemma_sort(s);
}

/// The names under which the functions are called.
pub proof fn lemma_function_names()
    ensures
        function_named("subst"@) == Some(Function::Subst),
        function_named("patsubst"@) == Some(Function::Patsubst),
        function_named("strip"@) == Some(Function::Strip),
        function_named("findstring"@) == Some(Function::Findstring),
        function_named("filter"@) == Some(Function::Filter),
        function_named("filter-out"@) == Some(Function::FilterOut),
        function_named("sort"@) == Some(Function::Sort),
        function_named("word"@) == Some(Function::Word),
        function_named("wordlist"@) == Some(Function::Wordlist),
        function_named("words"@) == Some(Function::Words),
        function_named("firstword"@) == Some(Function::Firstword),
        function_named("lastword"@) == Some(Function::Lastword),
        function_named("dir"@) == Some(Function::Dir),
        function_named("notdir"@) == Some(Function::Notdir),
        function_named("suffix"@) == Some(Function::Suffix),
        function_named("basename"@) == Some(Function::Basename),
        function_named("addsuffix"@) == Some(Function::Addsuffix),
        function_named("addprefix"@) == Some(Function::Addprefix),
        function_named("join"@) == Some(Function::Join),
        function_named("wildcard"@) == Some(Function::Wildcard),
        function_named("realpath"@) == Some(Function::Realpath),
        function_named("abspath"@) == Some(Function::Abspath),
        function_named("shell"@) == Some(Function::Shell),
        function_named("error"@) == Some(Function::Error),
        function_named("warning"@) == Some(Function::Warning),
        function_named("info"@) == Some(Function::Info),
        function_named("origin"@) == Some(Function::Origin),
        function_named("flavor"@) == Some(Function::Flavor),
        function_named("value"@) == Some(Function::Value),
        function_named("if"@) == Some(Function::If),
        function_named("or"@) == Some(Function::Or),
        function_named("and"@) == Some(Function::And),
        function_named("foreach"@) == Some(Function::Foreach),
        function_named("call"@) == Some(Function::Call),
        function_named("eval"@) == Some(Function::Eval),
{
    reveal_strlit("subst");
    reveal_strlit("patsubst");
    reveal_strlit("strip");
    reveal_strlit("findstring");
    reveal_strlit("filter");
    reveal_strlit("filter-out");
    reveal_strlit("sort");
    reveal_strlit("word");
    reveal_strlit("wordlist");
    reveal_strlit("words");
    reveal_strlit("firstword");
    reveal_strlit("lastword");
    reveal_strlit("dir");
    reveal_strlit("notdir");
    reveal_strlit("suffix");
    reveal_strlit("basename");
    reveal_strlit("addsuffix");
    reveal_strlit("addprefix");
    reveal_strlit("join");
    reveal_strlit("wildcard");
    reveal_strlit("realpath");
    reveal_strlit("abspath");
    reveal_strlit("shell");
    reveal_strlit("error");
    reveal_strlit("warning");
    reveal_strlit("info");
    reveal_strlit("origin");
    reveal_strlit("flavor");
    reveal_strlit("value");
    reveal_strlit("if");
    reveal_strlit("or");
    reveal_strlit("and");
    reveal_strlit("foreach");
    reveal_strlit("call");
    reveal_strlit("eval");
    assert("subst"@.len() == 5);
    assert("patsubst"@.len() == 8);
    assert("strip"@.len() == 5);
    assert("findstring"@.len() == 10);
    assert("filter"@.len() == 6);
    assert("filter-out"@.len() == 10);
    assert("sort"@.len() == 4);
    assert("word"@.len() == 4);
    assert("wordlist"@.len() == 8);
    assert("words"@.len() == 5);
    assert("firstword"@.len() == 9);
    assert("lastword"@.len() == 8);
    assert("dir"@.len() == 3);
    assert("notdir"@.len() == 6);
    assert("suffix"@.len() == 6);
    assert("basename"@.len() == 8);
    assert("addsuffix"@.len() == 9);
    assert("addprefix"@.len() == 9);
    assert("join"@.len() == 4);
    assert("wildcard"@.len() == 8);
    assert("realpath"@.len() == 8);
    assert("abspath"@.len() == 7);
    assert("shell"@.len() == 5);
    assert("error"@.len() == 5);
    assert("warning"@.len() == 7);
    assert("info"@.len() == 4);
    assert("origin"@.len() == 6);
    assert("flavor"@.len() == 6);
    assert("value"@.len() == 5);
    assert("if"@.len() == 2);
    assert("or"@.len() == 2);
    assert("and"@.len() == 3);
    assert("foreach"@.len() == 7);
    assert("call"@.len() == 4);
    assert("eval"@.len() == 4);
    assert("subst"@[1] != "strip"@[1]);
    assert("subst"@[0] != "words"@[0]);
    assert("subst"@[1] != "shell"@[1]);
    assert("subst"@[0] != "error"@[0]);
    assert("subst"@[0] != "value"@[0]);
    assert("patsubst"@[0] != "wordlist"@[0]);
    assert("patsubst"@[0] != "lastword"@[0]);
    assert("patsubst"@[0] != "basename"@[0]);
    assert("patsubst"@[0] != "wildcard"@[0]);
    assert("patsubst"@[0] != "realpath"@[0]);
    assert("strip"@[0] != "words"@[0]);
    assert("strip"@[1] != "shell"@[1]);
    assert("strip"@[0] != "error"@[0]);
    assert("strip"@[0] != "value"@[0]);
    assert("findstring"@[2] != "filter-out"@[2]);
    assert("filter"@[0] != "notdir"@[0]);
    assert("filter"@[0] != "suffix"@[0]);
    assert("filter"@[0] != "origin"@[0]);
    assert("filter"@[1] != "flavor"@[1]);
    assert("sort"@[0] != "word"@[0]);
    assert("sort"@[0] != "join"@[0]);
    assert("sort"@[0] != "info"@[0]);
    assert("sort"@[0] != "call"@[0]);
    assert("sort"@[0] != "eval"@[0]);
    assert("word"@[0] != "join"@[0]);
    assert("word"@[0] != "info"@[0]);
    assert("word"@[0] != "call"@[0]);
    assert("word"@[0] != "eval"@[0]);
    assert("wordlist"@[0] != "lastword"@[0]);
    assert("wordlist"@[0] != "basename"@[0]);
    assert("wordlist"@[1] != "wildcard"@[1]);
    assert("wordlist"@[0] != "realpath"@[0]);
    assert("words"@[0] != "shell"@[0]);
    assert("words"@[0] != "error"@[0]);
    assert("words"@[0] != "value"@[0]);
    assert("firstword"@[0] != "addsuffix"@[0]);
    assert("firstword"@[0] != "addprefix"@[0]);
    assert("lastword"@[0] != "basename"@[0]);
    assert("lastword"@[0] != "wildcard"@[0]);
    assert("lastword"@[0] != "realpath"@[0]);
    assert("dir"@[0] != "and"@[0]);
    assert("notdir"@[0] != "suffix"@[0]);
    assert("notdir"@[0] != "origin"@[0]);
    assert("notdir"@[0] != "flavor"@[0]);
    assert("suffix"@[0] != "origin"@[0]);
    assert("suffix"@[0] != "flavor"@[0]);
    assert("basename"@[0] != "wildcard"@[0]);
    assert("basename"@[0] != "realpath"@[0]);
    assert("addsuffix"@[3] != "addprefix"@[3]);
    assert("join"@[0] != "info"@[0]);
    assert("join"@[0] != "call"@[0]);
    assert("join"@[0] != "eval"@[0]);
    assert("wildcard"@[0] != "realpath"@[0]);
    assert("abspath"@[0] != "warning"@[0]);
    assert("abspath"@[0] != "foreach"@[0]);
    assert("shell"@[0] != "error"@[0]);
    assert("shell"@[0] != "value"@[0]);
    assert("error"@[0] != "value"@[0]);
    assert("warning"@[0] != "foreach"@[0]);
    assert("info"@[0] != "call"@[0]);
    assert("info"@[0] != "eval"@[0]);
    assert("origin"@[0] != "flavor"@[0]);
    assert("if"@[0] != "or"@[0]);
    assert("call"@[0] != "eval"@[0]);
}

} // verus!
