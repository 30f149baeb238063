//! Directories in which prerequisites are looked for.

use vstd::prelude::*;
use crate::paths;
use crate::paths::join_str;
use crate::search::between;
use crate::text;
use crate::text::{chars_of, dup_all, owned, same_text, string_of, Dup};
use crate::world;
use crate::world::{is_yes, Query, QueryView, Stop, StopView, Told, Transcript};
use super::rule;

verus! {

/// Per-pattern search path entry.
#[derive(Debug)]
pub struct VpathEntry {
    pub pattern: String,
    pub dirs: Vec<String>,
}

#[verifier::ext_equal]
pub struct VpathEntryView {
    pub pattern: Seq<char>,
    pub dirs: Seq<Seq<char>>,
}

impl View for VpathEntry {
    type V = VpathEntryView;

    open spec fn view(&self) -> VpathEntryView {
        VpathEntryView { pattern: self.pattern@, dirs: text::views(self.dirs@) }
    }
}

impl Dup for VpathEntry {
    fn dup(&self) -> (r: Self) {
        VpathEntry { pattern: self.pattern.dup(), dirs: dup_all(self.dirs.as_slice()) }
    }
}

/// Manages both the `VPATH` variable (all-files) and `vpath` directive (per-pattern).
#[derive(Debug)]
pub struct VpathTable {
    /// From the `VPATH` variable — searched for all files.
    pub global: Vec<String>,
    /// From `vpath pattern dirs` directives.
    pub patterns: Vec<VpathEntry>,
}

#[verifier::ext_equal]
pub struct VpathView {
    pub global: Seq<Seq<char>>,
    pub patterns: Seq<VpathEntryView>,
}

impl View for VpathTable {
    type V = VpathView;

    open spec fn view(&self) -> VpathView {
        VpathView { global: text::views(self.global@), patterns: text::views(self.patterns@) }
    }
}

impl Dup for VpathTable {
    fn dup(&self) -> (r: Self) {
        VpathTable {
            global: dup_all(self.global.as_slice()),
            patterns: dup_all(self.patterns.as_slice()),
        }
    }
}

/// Whether a character separates directories.
pub open spec fn is_separator(c: char) -> bool {
    c == ':' || c == ' '
}

/// Where the directory that goes through `i` ends.
pub open spec fn dir_end(s: Seq<char>, i: int) -> int
    decreases s.len() - i,
{
    if 0 <= i < s.len() && !is_separator(s[i]) {
        dir_end(s, i + 1)
    } else {
        i
    }
}

/// The directories in `s` from `i` on: the maximal runs without a separator.
pub open spec fn dirs_from(s: Seq<char>, i: int) -> Seq<Seq<char>>
    decreases s.len() - i,
    when 0 <= i
    via dirs_from_decreases
{
    if i >= s.len() {
        seq![]
    } else if is_separator(s[i]) {
        dirs_from(s, i + 1)
    } else {
        seq![s.subrange(i, dir_end(s, i))] + dirs_from(s, dir_end(s, i))
    }
}

#[via_fn]
proof fn dirs_from_decreases(s: Seq<char>, i: int) {
    if i < s.len() && !is_separator(s[i]) {
        lemma_dir_end(s, i + 1);
    }
}

proof fn lemma_dir_end(s: Seq<char>, i: int)
    requires
        0 <= i <= s.len(),
    ensures
        i <= dir_end(s, i) <= s.len(),
    decreases s.len() - i,
{
    if i < s.len() && !is_separator(s[i]) {
        lemma_dir_end(s, i + 1);
    }
}

/// The directories in a search path.
pub open spec fn dir_list(s: Seq<char>) -> Seq<Seq<char>> {
    dirs_from(s, 0)
}

fn split_dirs(value: &str) -> (r: Vec<String>)
    ensures
        text::views(r@) == dir_list(value@),
{
    broadcast use text::group_views;

    let s = chars_of(value);
    let mut out: Vec<String> = Vec::new();
    let mut i: usize = 0;
    proof {
        assert(text::views(out@) + dirs_from(s@, 0) =~= dirs_from(s@, 0));
    }
    while i < s.len()
        invariant
            i <= s@.len(),
            s@ == value@,
            dir_list(s@) == text::views(out@) + dirs_from(s@, i as int),
        decreases s.len() - i,
    {
        if s[i] == ':' || s[i] == ' ' {
            i = i + 1;
        } else {
            let mut j: usize = i + 1;
            while j < s.len() && s[j] != ':' && s[j] != ' '
                invariant
                    i < j <= s@.len(),
                    !is_separator(s@[i as int]),
                    dir_end(s@, i as int) == dir_end(s@, j as int),
                decreases s.len() - j,
            {
                j = j + 1;
            }
            let ghost before = text::views(out@);
            out.push(string_of(between(s.as_slice(), i, j)));
            proof {
                assert(text::views(out@) + dirs_from(s@, j as int) =~= before + dirs_from(
                    s@,
                    i as int,
                ));
            }
            i = j;
        }
    }
    proof {
        assert(text::views(out@) + dirs_from(s@, i as int) =~= text::views(out@));
    }
    out
}

/// `name` seen from each of some directories.
pub open spec fn places(dirs: Seq<Seq<char>>, name: Seq<char>) -> Seq<Seq<char>> {
    dirs.map_values(|d: Seq<char>| paths::joined(d, name))
}

/// `name` seen from the directories of the first `n` entries whose pattern it
/// matches.
pub open spec fn pattern_places(
    entries: Seq<VpathEntryView>,
    n: int,
    name: Seq<char>,
) -> Seq<Seq<char>>
    decreases n,
{
    if n <= 0 {
        seq![]
    } else {
        let before = pattern_places(entries, n - 1, name);
        if rule::stem(name, entries[n - 1].pattern) is Some {
            before + places(entries[n - 1].dirs, name)
        } else {
            before
        }
    }
}

/// Where to look for `name`: first in the directories for patterns that it
/// matches, in the order in which they were added, then in those for all files.
pub open spec fn candidates(v: VpathView, name: Seq<char>) -> Seq<Seq<char>> {
    pattern_places(v.patterns, v.patterns.len() as int, name) + places(v.global, name)
}

/// The first of the paths from position `i` on that exists.
pub open spec fn first_existing(
    list: Seq<Seq<char>>,
    i: int,
    log: Seq<world::AnswerView>,
    k: nat,
) -> Told<Option<Seq<char>>>
    decreases list.len() - i,
{
    if i < 0 || i >= list.len() {
        Ok((None, k))
    } else {
        match world::asked(log, k, QueryView::Exists(list[i])) {
            Err(s) => Err(s),
            Ok(a) => if world::says_yes(a.0) {
                Ok((Some(list[i]), a.1))
            } else {
                first_existing(list, i + 1, log, a.1)
            },
        }
    }
}

/// The path under which `name` is found in the search directories. Nothing is
/// looked for where `name` itself exists.
pub open spec fn found(
    v: VpathView,
    name: Seq<char>,
    log: Seq<world::AnswerView>,
    k: nat,
) -> Told<Option<Seq<char>>> {
    match world::asked(log, k, QueryView::Exists(name)) {
        Err(s) => Err(s),
        Ok(a) => if world::says_yes(a.0) {
            Ok((None, a.1))
        } else {
            first_existing(candidates(v, name), 0, log, a.1)
        },
    }
}

/// An optional path.
#[derive(Debug)]
pub struct Found(pub Option<String>);

impl View for Found {
    type V = Option<Seq<char>>;

    open spec fn view(&self) -> Option<Seq<char>> {
        text::view_of(self.0)
    }
}

impl Default for VpathTable {
    fn default() -> (r: Self)
        ensures
            r@ == (VpathView { global: seq![], patterns: seq![] }),
    {
        Self::new()
    }
}

/// Adds `name` seen from each of some directories.
pub fn add_places(out: &mut Vec<String>, dirs: &[String], name: &str)
    ensures
        text::views(final(out)@) == text::views(old(out)@) + places(text::views(dirs@), name@),
{
    broadcast use text::group_views;

    let ghost all = places(text::views(dirs@), name@);
    let ghost before = text::views(out@);
    let mut i: usize = 0;
    proof {
        assert(before + all.take(0) =~= before);
    }
    while i < dirs.len()
        invariant
            i <= dirs@.len(),
            all == places(text::views(dirs@), name@),
            text::views(out@) == before + all.take(i as int),
        decreases dirs.len() - i,
    {
        out.push(join_str(dirs[i].as_str(), name));
        proof {
            assert(before + all.take(i + 1) =~= (before + all.take(i as int)).push(all[i as int]));
        }
        i = i + 1;
    }
    proof {
        assert(all.take(i as int) =~= all);
    }
}

/// Finds the first of some paths that exists.
pub fn first_found(list: &[String], t: &mut Transcript) -> (r: Result<Found, Stop>)
    ensures
        world::tells(
            r,
            *old(t),
            *final(t),
            first_existing(text::views(list@), 0, old(t).log(), old(t).at()),
        ),
{
    let ghost paths = text::views(list@);
    let mut i: usize = 0;
    while i < list.len()
        invariant
            i <= list@.len(),
            paths == text::views(list@),
            t.log() == old(t).log(),
            first_existing(paths, 0, old(t).log(), old(t).at()) == first_existing(
                paths,
                i as int,
                t.log(),
                t.at(),
            ),
        decreases list.len() - i,
    {
        assert(paths[i as int] == list@[i as int]@);
        let a = t.ask(Query::Exists(list[i].dup()))?;
        if is_yes(&a) {
            return Ok(Found(Some(list[i].dup())));
        }
        i = i + 1;
    }
    Ok(Found(None))
}

impl VpathTable {
    pub fn new() -> (r: Self)
        ensures
            r@ == (VpathView { global: seq![], patterns: seq![] }),
    {
        broadcast use text::group_views;

        VpathTable { global: Vec::new(), patterns: Vec::new() }
    }

    /// Update the global search path from the `VPATH` variable value.
    /// Colons and spaces both separate directories.
    pub fn set_vpath_var(&mut self, value: &str)
        ensures
            final(self)@ == (VpathView { global: dir_list(value@), ..old(self)@ }),
    {
        self.global = split_dirs(value);
    }

    /// Add a `vpath PATTERN DIRS` directive.
    pub fn add_pattern(&mut self, pattern: &str, dirs_str: &str)
        ensures
            final(self)@.global == old(self)@.global,
            ({
                let entry = VpathEntryView { pattern: pattern@, dirs: dir_list(dirs_str@) };
                let patterns = old(self)@.patterns;
                let same = |e: VpathEntryView| e.pattern == pattern@;
                if exists|i: int| 0 <= i < patterns.len() && #[trigger] same(patterns[i]) {
                    exists|i: int|
                        0 <= i < patterns.len() && #[trigger] same(patterns[i]) && (forall|j: int|
                            0 <= j < i ==> !same(#[trigger] patterns[j]))
                            && final(self)@.patterns == patterns.update(i, entry)
                } else {
                    final(self)@.patterns == patterns.push(entry)
                }
            }),
    {
        broadcast use text::group_views;

        let dirs = split_dirs(dirs_str);
        let ghost patterns = self@.patterns;
        let ghost same = |e: VpathEntryView| e.pattern == pattern@;
        let mut i: usize = 0;
        while i < self.patterns.len()
            invariant
                i <= self.patterns@.len(),
                *self == *old(self),
                patterns == self@.patterns,
                same == (|e: VpathEntryView| e.pattern == pattern@),
                text::views(dirs@) == dir_list(dirs_str@),
                forall|j: int| 0 <= j < i ==> !same(#[trigger] patterns[j]),
            decreases self.patterns.len() - i,
        {
            if same_text(self.patterns[i].pattern.as_str(), pattern) {
                assert(same(patterns[i as int]));
                self.patterns[i] = VpathEntry { pattern: owned(pattern), dirs };
                return ;
            }
            i = i + 1;
        }
        self.patterns.push(VpathEntry { pattern: owned(pattern), dirs });
    }

    /// `vpath PATTERN` with no dirs clears that pattern's entries.
    pub fn clear_pattern(&mut self, pattern: &str)
        ensures
            final(self)@.global == old(self)@.global,
            final(self)@.patterns == old(self)@.patterns.filter(
                |e: VpathEntryView| e.pattern != pattern@,
            ),
    {
        broadcast use text::group_views;

        let ghost all = self@.patterns;
        let ghost keep = |e: VpathEntryView| e.pattern != pattern@;
        let mut kept: Vec<VpathEntry> = Vec::new();
        let mut i: usize = 0;
        proof {
            assert(all.take(0) =~= seq![]);
            reveal(Seq::filter);
        }
        while i < self.patterns.len()
            invariant
                i <= self.patterns@.len(),
                all == self@.patterns,
                keep == (|e: VpathEntryView| e.pattern != pattern@),
                *self == *old(self),
                text::views(kept@) == all.take(i as int).filter(keep),
            decreases self.patterns.len() - i,
        {
            proof {
                reveal(Seq::filter);
                assert(all.take(i + 1).drop_last() =~= all.take(i as int));
                assert(all.take(i + 1).last() == self.patterns@[i as int]@);
            }
            if !same_text(self.patterns[i].pattern.as_str(), pattern) {
                kept.push(self.patterns[i].dup());
            }
            i = i + 1;
        }
        proof {
            assert(all.take(i as int) =~= all);
        }
        self.patterns = kept;
    }

    /// `vpath` with no args clears all pattern entries.
    pub fn clear_all(&mut self)
        ensures
            final(self)@ == (VpathView { patterns: seq![], ..old(self)@ }),
    {
        broadcast use text::group_views;

        self.patterns = Vec::new();
    }

    /// Where to look for `name`, in order.
    fn candidate_list(&self, name: &str) -> (r: Vec<String>)
        ensures
            text::views(r@) == candidates(self@, name@),
    {
        broadcast use text::group_views;

        let n = chars_of(name);
        let mut out: Vec<String> = Vec::new();
        let mut i: usize = 0;
        while i < self.patterns.len()
            invariant
                i <= self.patterns@.len(),
                n@ == name@,
                text::views(out@) == pattern_places(self@.patterns, i as int, name@),
            decreases self.patterns.len() - i,
        {
            let p = chars_of(self.patterns[i].pattern.as_str());
            if rule::fits(n.as_slice(), p.as_slice()) {
                add_places(&mut out, self.patterns[i].dirs.as_slice(), name);
            }
            i = i + 1;
        }
        add_places(&mut out, self.global.as_slice(), name);
        out
    }

    /// Search for `name` in vpath directories.
    /// Returns the found path, or `None` if the file doesn't exist anywhere in vpath.
    /// Note: only searches if `name` does NOT exist in the current directory.
    pub fn find(&self, name: &str, t: &mut Transcript) -> (r: Result<Found, Stop>)
        ensures
            world::tells(
                r,
                *old(t),
                *final(t),
                found(self@, name@, old(t).log(), old(t).at()),
            ),
    {
        let here = t.ask(Query::Exists(owned(name)))?;
        if is_yes(&here) {
            return Ok(Found(None));
        }
        let list = self.candidate_list(name);
        first_found(list.as_slice(), t)
    }

    /// Find a file, returning the actual path to use (found path or original name)
    /// and whether it was found via vpath (for $< etc.).
    pub fn resolve(&self, name: &str, t: &mut Transcript) -> (r: Result<(String, bool), Stop>)
        ensures
            world::tells(
                r,
                *old(t),
                *final(t),
                match found(self@, name@, old(t).log(), old(t).at()) {
                    Err(s) => Err(s),
                    Ok(p) => match p.0 {
                        Some(path) => Ok(((path, true), p.1)),
                        None => Ok(((name@, false), p.1)),
                    },
                },
            ),
    {
        match self.find(name, t)?.0 {
            Some(path) => Ok((path, true)),
            None => Ok((owned(name), false)),
        }
    }
}

/// A name that exists is never looked for elsewhere.
pub proof fn lemma_existing_first(
    v: VpathView,
    name: Seq<char>,
    log: Seq<world::AnswerView>,
    k: nat,
)
    requires
        k < log.len(),
        world::says_yes(log[k as int]),
    ensures
        found(v, name, log, k) == Ok::<(Option<Seq<char>>, nat), (StopView, nat)>((None, k + 1)),
{
}

/// A path that is found is one of the places to look in, and the first that
/// exists: of all places before it the answer was no.
pub proof fn lemma_found(v: VpathView, name: Seq<char>, log: Seq<world::AnswerView>, k: nat)
    ensures
        found(v, name, log, k) matches Ok(p) ==> (p.0 matches Some(path) ==> {
            let n = p.1 - k - 2;
            &&& 0 <= n < candidates(v, name).len()
            &&& candidates(v, name)[n] == path
            &&& world::says_yes(log[p.1 - 1])
            &&& forall|i: int| k <= i < p.1 - 1 ==> !world::says_yes(#[trigger] log[i])
        }),
{
    lemma_first_existing(candidates(v, name), 0, log, k + 1);
}

proof fn lemma_first_existing(
    list: Seq<Seq<char>>,
    i: int,
    log: Seq<world::AnswerView>,
    k: nat,
)
    requires
        0 <= i,
    ensures
        first_existing(list, i, log, k) matches Ok(p) ==> (p.0 matches Some(path) ==> {
            let n = i + p.1 - k - 1;
            &&& i <= n < list.len()
            &&& list[n] == path
            &&& world::says_yes(log[p.1 - 1])
            &&& forall|j: int| k <= j < p.1 - 1 ==> !world::says_yes(#[trigger] log[j])
        }),
    decreases list.len() - i,
{
    if i < list.len() && k < log.len() {
        lemma_first_existing(list, i + 1, log, k + 1);
    }
}

/// The directories of a search path are what stands between its colons and spaces.
pub proof fn lemma_dir_list(d: Seq<char>, c: char, t: Seq<char>)
    requires
        c == ':' || c == ' ',
        d.len() > 0,
        !d.contains(':'),
        !d.contains(' '),
    ensures
        dir_list(Seq::<char>::empty()) == Seq::<Seq<char>>::empty(),
        dir_list(seq![c] + t) == dir_list(t),
        dir_list(d) == seq![d],
        dir_list(d + seq![c] + t) == seq![d] + dir_list(t),
{
    let s = seq![c] + t;
    assert(s[0] == c);
    lemma_dirs_shift(s, t, 1, 0);
    let u = d + seq![c] + t;
    let n = d.len() as int;
    assert forall|i: int| 0 <= i < n implies !is_separator(#[trigger] d[i]) by {
        assert(d.contains(d[i]));
    }
    assert forall|i: int| 0 <= i < n implies !is_separator(#[trigger] u[i]) by {
        assert(u[i] == d[i]);
    }
    assert(u[n] == c);
    lemma_dir_ends(u, 0, n);
    lemma_dir_ends(d, 0, n);
    assert(u.subrange(0, n) =~= d);
    assert(d.subrange(0, n) =~= d);
    assert(dirs_from(u, n) == dirs_from(u, n + 1));
    lemma_dirs_shift(u, t, n + 1, 0);
    assert(dirs_from(d, n) =~= seq![]);
    assert(dir_list(d) =~= seq![d]);
}

proof fn lemma_dir_ends(s: Seq<char>, i: int, n: int)
    requires
        0 <= i <= n <= s.len(),
        forall|j: int| 0 <= j < n ==> !is_separator(#[trigger] s[j]),
        n == s.len() || is_separator(s[n]),
    ensures
        dir_end(s, i) == n,
    decreases n - i,
{
    if i < n {
        lemma_dir_ends(s, i + 1, n);
    }
}

proof fn lemma_dirs_shift(s: Seq<char>, t: Seq<char>, n: int, i: int)
    requires
        0 <= n,
        0 <= i <= t.len(),
        s.len() == n + t.len(),
        forall|j: int| 0 <= j < t.len() ==> s[n + j] == #[trigger] t[j],
    ensures
        dirs_from(s, n + i) == dirs_from(t, i),
    decreases t.len() - i,
{
    if i < t.len() {
        assert(s[n + i] == t[i]);
        if is_separator(t[i]) {
            lemma_dirs_shift(s, t, n, i + 1);
        } else {
            lemma_dir_end(t, i + 1);
            lemma_dir_end_shift(s, t, n, i);
            let e = dir_end(t, i);
            lemma_dirs_shift(s, t, n, e);
            assert(s.subrange(n + i, n + e) =~= t.subrange(i, e));
        }
    }
}

proof fn lemma_dir_end_shift(s: Seq<char>, t: Seq<char>, n: int, i: int)
    requires
        0 <= n,
        0 <= i <= t.len(),
        s.len() == n + t.len(),
        forall|j: int| 0 <= j < t.len() ==> s[n + j] == #[trigger] t[j],
    ensures
        dir_end(s, n + i) == n + dir_end(t, i),
    decreases t.len() - i,
{
    if i < t.len() {
        assert(s[n + i] == t[i]);
        lemma_dir_end_shift(s, t, n, i + 1);
    }
}

/// A name is looked for in each directory, in order: first in those of the patterns that it
/// matches, as they were added, then in those for all files.
pub proof fn lemma_candidates(
    patterns: Seq<VpathEntryView>,
    e: VpathEntryView,
    global: Seq<Seq<char>>,
    name: Seq<char>,
    i: int,
)
    ensures
        ({
            let before = candidates((VpathView { global: seq![], patterns }), name);
            let list = candidates((VpathView { global, patterns: patterns.push(e) }), name);
            let n: int = if rule::stem(name, e.pattern) is Some {
                e.dirs.len() as int
            } else {
                0
            };
            &&& candidates((VpathView { global: seq![], patterns: seq![] }), name) == Seq::<
                Seq<char>,
            >::empty()
            &&& list.len() == before.len() + n + global.len()
            &&& 0 <= i < before.len() ==> list[i] == before[i]
            &&& 0 <= i < n ==> list[before.len() + i] == paths::joined(e.dirs[i], name)
            &&& 0 <= i < global.len() ==> list[before.len() + n + i] == paths::joined(
                global[i],
                name,
            )
        }),
{
    let m = patterns.len() as int;
    let more = patterns.push(e);
    lemma_places_same(patterns, more, m, name);
    assert(more[m] == e);
    let a = pattern_places(patterns, m, name);
    assert(a + places(seq![], name) =~= a);
    assert(pattern_places(seq![], 0, name) + places(seq![], name) =~= seq![]);
}

proof fn lemma_places_same(
    a: Seq<VpathEntryView>,
    b: Seq<VpathEntryView>,
    n: int,
    name: Seq<char>,
)
    requires
        0 <= n <= a.len(),
        n <= b.len(),
        forall|i: int| 0 <= i < n ==> a[i] == b[i],
    ensures
        pattern_places(a, n, name) == pattern_places(b, n, name),
    decreases n,
{
    if n > 0 {
        lemma_places_same(a, b, n - 1, name);
    }
}

/// Nothing is found exactly where the name itself exists, or the answer was no for every
/// place to look in; each place is asked for in its turn.
pub proof fn lemma_not_found(v: VpathView, name: Seq<char>, log: Seq<world::AnswerView>, k: nat)
    ensures
        found(v, name, log, k) matches Ok(p) ==> (p.0 is None ==> k < log.len() && (log[k as int]
            == world::AnswerView::Flag(true) || (p.1 == k + 1 + candidates(v, name).len() && p.1
            <= log.len() && forall|i: int|
            k <= i < p.1 ==> #[trigger] log[i] != world::AnswerView::Flag(true)))),
        found(v, name, log, k) matches Err(e) ==> {
            &&& e.1 >= log.len()
            &&& e.1 == k ==> e.0 == StopView::Ask(QueryView::Exists(name))
            &&& e.1 > k ==> e.1 - k - 1 < candidates(v, name).len() && e.0 == StopView::Ask(
                QueryView::Exists(candidates(v, name)[e.1 - k - 1]),
            )
        },
{
    lemma_not_existing(candidates(v, name), 0, log, k + 1);
}

proof fn lemma_not_existing(
    list: Seq<Seq<char>>,
    i: int,
    log: Seq<world::AnswerView>,
    k: nat,
)
    requires
        0 <= i <= list.len(),
    ensures
        first_existing(list, i, log, k) matches Ok(p) ==> (p.0 is None ==> p.1 == k + list.len() - i
            && (p.1 > k ==> p.1 <= log.len()) && forall|j: int|
            k <= j < p.1 ==> #[trigger] log[j] != world::AnswerView::Flag(true)),
        first_existing(list, i, log, k) matches Err(e) ==> e.1 >= log.len() && k <= e.1 && e.1 - k
            < list.len() - i && e.0 == StopView::Ask(QueryView::Exists(list[i + e.1 - k])),
    decreases list.len() - i,
{
    if i < list.len() && k < log.len() {
        lemma_not_existing(list, i + 1, log, k + 1);
    }
}

} // verus!
