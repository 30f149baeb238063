//! Logical lines: comments removed, continued lines joined.

use vstd::prelude::*;
use crate::search::between;
use crate::text;
use crate::text::{append, chars_of, string_of, trimmed_end, upto, Dup};

verus! {

/// A logical line: one or more physical lines joined by backslash continuation.
/// The `line` field is the 1-based number of the *first* physical line.
#[derive(Debug)]
pub struct LogicalLine {
    pub text: String,
    pub line: usize,
}

#[verifier::ext_equal]
pub struct LogicalLineView {
    pub text: Seq<char>,
    pub line: nat,
}

impl View for LogicalLine {
    type V = LogicalLineView;

    open spec fn view(&self) -> LogicalLineView {
        LogicalLineView { text: self.text@, line: self.line as nat }
    }
}

impl Clone for LogicalLine {
    fn clone(&self) -> (r: Self)
        ensures
            r@ == self@,
    {
        LogicalLine { text: self.text.dup(), line: self.line }
    }
}

/// Where the physical line that goes through `i` ends.
pub open spec fn line_end(s: Seq<char>, i: int) -> int
    decreases s.len() - i,
{
    if 0 <= i < s.len() && s[i] != '\n' {
        line_end(s, i + 1)
    } else {
        i
    }
}

/// Where a comment begins: at the first `#` from `i` on without a `\` before it.
pub open spec fn comment_start(s: Seq<char>, i: int) -> int
    decreases s.len() - i,
{
    if i < 0 || i >= s.len() || (s[i] == '#' && (i == 0 || s[i - 1] != '\\')) {
        i
    } else {
        comment_start(s, i + 1)
    }
}

/// A physical line without its comment.
pub open spec fn uncommented(s: Seq<char>) -> Seq<char> {
    s.take(comment_start(s, 0))
}

/// The physical line that begins at `pos`, without its comment.
pub open spec fn physical(s: Seq<char>, pos: int) -> Seq<char> {
    uncommented(s.subrange(pos, line_end(s, pos)))
}

/// Where the physical line after the one at `pos` begins.
pub open spec fn following(s: Seq<char>, pos: int) -> int {
    if line_end(s, pos) < s.len() {
        line_end(s, pos) + 1
    } else {
        s.len() as int
    }
}

/// Whether a line goes on in the next one.
pub open spec fn continued(line: Seq<char>) -> bool {
    line.len() > 0 && line.last() == '\\'
}

/// A line that goes on, without its `\`: one space stands for it and for the
/// whitespace before it.
pub open spec fn folded(line: Seq<char>) -> Seq<char> {
    text::trim_end(line.drop_last()) + seq![' ']
}

/// The logical line that begins at `pos`: its text, where the next one begins,
/// and how many physical lines it takes.
pub open spec fn logical(s: Seq<char>, pos: int) -> (Seq<char>, int, nat)
    decreases s.len() - pos,
    when 0 <= pos < s.len()
    via logical_decreases
{
    let line = physical(s, pos);
    let next = following(s, pos);
    if !continued(line) {
        (line, next, 1)
    } else if next >= s.len() {
        (folded(line), next, 1)
    } else {
        let rest = logical(s, next);
        (folded(line) + rest.0, rest.1, rest.2 + 1)
    }
}

#[via_fn]
proof fn logical_decreases(s: Seq<char>, pos: int) {
    lemma_line_end(s, pos);
}

/// The logical lines from `pos` on, where `pos` is on line `line`.
pub open spec fn lines_from(s: Seq<char>, pos: int, line: nat) -> Seq<LogicalLineView>
    decreases s.len() - pos,
    when 0 <= pos
    via lines_from_decreases
{
    if pos >= s.len() {
        seq![]
    } else {
        let l = logical(s, pos);
        seq![LogicalLineView { text: l.0, line }] + lines_from(s, l.1, line + l.2)
    }
}

#[via_fn]
proof fn lines_from_decreases(s: Seq<char>, pos: int, line: nat) {
    if pos < s.len() {
        lemma_logical(s, pos);
    }
}

/// The logical lines of a source text.
pub open spec fn logical_lines(s: Seq<char>) -> Seq<LogicalLineView> {
    lines_from(s, 0, 1)
}

pub proof fn lemma_line_end(s: Seq<char>, i: int)
    requires
        0 <= i <= s.len(),
    ensures
        i <= line_end(s, i) <= s.len(),
    decreases s.len() - i,
{
    if i < s.len() && s[i] != '\n' {
        lemma_line_end(s, i + 1);
    }
}

proof fn lemma_comment_start(s: Seq<char>, i: int)
    requires
        0 <= i <= s.len(),
    ensures
        i <= comment_start(s, i) <= s.len(),
    decreases s.len() - i,
{
    if i < s.len() && !(s[i] == '#' && (i == 0 || s[i - 1] != '\\')) {
        lemma_comment_start(s, i + 1);
    }
}

/// A logical line ends behind where it begins, inside the text.
pub proof fn lemma_logical(s: Seq<char>, pos: int)
    requires
        0 <= pos < s.len(),
    ensures
        pos < logical(s, pos).1 <= s.len(),
        logical(s, pos).2 >= 1,
    decreases s.len() - pos,
{
    lemma_line_end(s, pos);
    let next = following(s, pos);
    if continued(physical(s, pos)) && next < s.len() {
        lemma_logical(s, next);
    }
}

/// The first logical line is on line 1, and each is on a later line than the
/// one before it.
pub proof fn lemma_line_numbers(s: Seq<char>)
    ensures
        logical_lines(s).len() > 0 ==> logical_lines(s)[0].line == 1,
        forall|i: int, j: int|
            0 <= i < j < logical_lines(s).len() ==> (#[trigger] logical_lines(s)[i]).line < (
            #[trigger] logical_lines(s)[j]).line,
{
    lemma_line_numbers_from(s, 0, 1);
}

proof fn lemma_line_numbers_from(s: Seq<char>, pos: int, line: nat)
    requires
        0 <= pos,
    ensures
        lines_from(s, pos, line).len() > 0 ==> lines_from(s, pos, line)[0].line == line,
        forall|i: int|
            0 <= i < lines_from(s, pos, line).len() ==> (#[trigger] lines_from(s, pos, line)[i]).line
                >= line,
        forall|i: int, j: int|
            0 <= i < j < lines_from(s, pos, line).len() ==> (#[trigger] lines_from(
                s,
                pos,
                line,
            )[i]).line < (#[trigger] lines_from(s, pos, line)[j]).line,
    decreases s.len() - pos,
{
    if pos < s.len() {
        lemma_logical(s, pos);
        let l = logical(s, pos);
        lemma_line_numbers_from(s, l.1, line + l.2);
        let rest = lines_from(s, l.1, line + l.2);
        let all = lines_from(s, pos, line);
        assert(all == seq![LogicalLineView { text: l.0, line }] + rest);
        assert forall|i: int, j: int| 0 <= i < j < all.len() implies (#[trigger] all[i]).line < (
        #[trigger] all[j]).line by {
            assert(all[j] == rest[j - 1]);
            if i > 0 {
                assert(all[i] == rest[i - 1]);
            }
        }
    }
}

/// Text without comments and without lines that go on is read line by line, as
/// it stands.
pub proof fn lemma_plain_line(s: Seq<char>)
    requires
        s.len() > 0,
        !s.contains('\n'),
        !s.contains('#'),
        s.last() != '\\',
    ensures
        logical_lines(s) == seq![LogicalLineView { text: s, line: 1 }],
{
    lemma_whole_line(s, 0);
    lemma_no_comment(s, 0);
    assert(s.subrange(0, s.len() as int) =~= s);
    assert(s.take(s.len() as int) =~= s);
    assert(lines_from(s, s.len() as int, 2) =~= seq![]);
    assert(logical_lines(s) =~= seq![LogicalLineView { text: s, line: 1 }]);
}

proof fn lemma_whole_line(s: Seq<char>, i: int)
    requires
        0 <= i <= s.len(),
        !s.contains('\n'),
    ensures
        line_end(s, i) == s.len(),
    decreases s.len() - i,
{
    if i < s.len() {
        assert(s.contains(s[i]));
        lemma_whole_line(s, i + 1);
    }
}

proof fn lemma_no_comment(s: Seq<char>, i: int)
    requires
        0 <= i <= s.len(),
        !s.contains('#'),
    ensures
        comment_start(s, i) == s.len(),
    decreases s.len() - i,
{
    if i < s.len() {
        assert(s.contains(s[i]));
        lemma_no_comment(s, i + 1);
    }
}

/// Strip a `#` comment from a physical line, respecting `\#` (escaped hash).
fn strip_comment(s: &[char]) -> (r: &[char])
    ensures
        r@ == uncommented(s@),
{
    let mut i: usize = 0;
    while i < s.len() && !(s[i] == '#' && (i == 0 || s[i - 1] != '\\'))
        invariant
            i <= s@.len(),
            comment_start(s@, 0) == comment_start(s@, i as int),
        decreases s.len() - i,
    {
        i = i + 1;
    }
    upto(s, i)
}

/// The logical lines of a makefile source string, one after the other.
#[derive(Debug)]
pub struct Reader {
    src: Vec<char>,
    pos: usize,
    done: usize,
}

impl Reader {
    #[verifier::type_invariant]
    spec fn in_range(self) -> bool {
        self.done <= self.pos <= self.src@.len()
    }

    /// The lines that are still to come.
    pub closed spec fn rest(self) -> Seq<LogicalLineView> {
        lines_from(self.src@, self.pos as int, (self.done + 1) as nat)
    }

    pub fn new(src: &str) -> (r: Self)
        ensures
            r.rest() == logical_lines(src@),
    {
        Reader { src: chars_of(src), pos: 0, done: 0 }
    }

    /// Takes the next line.
    pub fn next(&mut self) -> (r: Option<LogicalLine>)
        ensures
            match r {
                Some(l) => old(self).rest() == seq![l@] + final(self).rest(),
                None => old(self).rest().len() == 0 && final(self).rest().len() == 0,
            },
    {
        proof {
            use_type_invariant(&*self);
        }
        if self.pos >= self.src.len() {
            return None;
        }
        let start: usize = self.done + 1;
        let ghost s = self.src@;
        let ghost from = self.pos as int;
        let ghost whole = logical(s, from);
        let mut out: Vec<char> = Vec::new();
        let mut pos: usize = self.pos;
        let mut done: usize = self.done;
        let mut open = true;
        proof {
            lemma_logical(s, from);
            assert(out@ + whole.0 =~= whole.0);
        }
        while open
            invariant
                s == self.src@,
                done <= pos <= s.len(),
                from == self.pos,
                start == self.done + 1,
                whole == logical(s, from),
                open ==> pos < s.len(),
                open ==> whole.0 == out@ + logical(s, pos as int).0,
                open ==> whole.1 == logical(s, pos as int).1,
                open ==> start - 1 + whole.2 == done + logical(s, pos as int).2,
                !open ==> whole.0 == out@,
                !open ==> whole.1 == pos,
                !open ==> start - 1 + whole.2 == done,
            decreases s.len() - pos, (if open { 1int } else { 0int }),
        {
            let e = self.end_of_line(pos);
            proof {
                lemma_line_end(s, pos as int);
            }
            let line = strip_comment(between(self.src.as_slice(), pos, e));
            let ghost at = pos as int;
            let ghost before = out@;
            assert(line@ == physical(s, at));
            pos = if e < self.src.len() {
                e + 1
            } else {
                self.src.len()
            };
            done = done + 1;
            if line.len() > 0 && line[line.len() - 1] == '\\' {
                append(&mut out, trimmed_end(upto(line, line.len() - 1)));
                out.push(' ');
                proof {
                    assert(line@.take(line@.len() - 1) =~= line@.drop_last());
                    assert(out@ =~= before + folded(line@));
                }
                if pos >= self.src.len() {
                    open = false;
                } else {
                    proof {
                        let rest = logical(s, pos as int);
                        assert(out@ + rest.0 =~= before + (folded(line@) + rest.0));
                    }
                }
            } else {
                append(&mut out, line);
                open = false;
            }
        }
        self.pos = pos;
        self.done = done;
        Some(LogicalLine { text: string_of(out.as_slice()), line: start })
    }

    fn end_of_line(&self, pos: usize) -> (r: usize)
        requires
            pos <= self.src@.len(),
        ensures
            r == line_end(self.src@, pos as int),
            pos <= r <= self.src@.len(),
    {
        let mut i: usize = pos;
        while i < self.src.len() && self.src[i] != '\n'
            invariant
                pos <= i <= self.src@.len(),
                line_end(self.src@, pos as int) == line_end(self.src@, i as int),
            decreases self.src.len() - i,
        {
            i = i + 1;
        }
        i
    }

    /// Takes all lines that are still to come.
    pub fn collect(self) -> (r: Vec<LogicalLine>)
        ensures
            text::views(r@) == self.rest(),
    {
        broadcast use text::group_views;

        let ghost all = self.rest();
        let mut reader = self;
        let mut out: Vec<LogicalLine> = Vec::new();
        let mut more = true;
        proof {
            assert(text::views(out@) + reader.rest() =~= all);
        }
        while more
            invariant
                all == text::views(out@) + reader.rest(),
                !more ==> reader.rest().len() == 0,
            decreases reader.rest().len(), (if more { 1int } else { 0int }),
        {
            let ghost rest = reader.rest();
            match reader.next() {
                Some(l) => {
                    let ghost before = text::views(out@);
                    out.push(l);
                    proof {
                        assert(text::views(out@) + reader.rest() =~= before + rest);
                    }
                },
                None => {
                    more = false;
                    proof {
                        assert(reader.rest() =~= rest);
                    }
                },
            }
        }
        proof {
            assert(text::views(out@) + reader.rest() =~= text::views(out@));
        }
        out
    }
}

// ── What holds of logical lines ─────────────────────────────────────────────

/// No logical line holds a newline.
pub proof fn lemma_no_newline(s: Seq<char>, pos: int, line: nat)
    requires
        0 <= pos,
    ensures
        forall|i: int|
            0 <= i < lines_from(s, pos, line).len() ==> !(#[trigger] lines_from(
                s,
                pos,
                line,
            )[i]).text.contains('\n'),
    decreases s.len() - pos,
{
    if pos < s.len() {
        lemma_logical(s, pos);
        lemma_logical_text(s, pos);
        let l = logical(s, pos);
        lemma_no_newline(s, l.1, line + l.2);
        let all = lines_from(s, pos, line);
        let rest = lines_from(s, l.1, line + l.2);
        assert forall|i: int| 0 <= i < all.len() implies !(#[trigger] all[i]).text.contains(
            '\n',
        ) by {
            if i > 0 {
                assert(all[i] == rest[i - 1]);
            }
        }
    }
}

proof fn lemma_logical_text(s: Seq<char>, pos: int)
    requires
        0 <= pos < s.len(),
    ensures
        !logical(s, pos).0.contains('\n'),
    decreases s.len() - pos,
{
    let line = physical(s, pos);
    let next = following(s, pos);
    lemma_line_end(s, pos);
    lemma_line_chars(s, pos);
    lemma_comment_start(s.subrange(pos, line_end(s, pos)), 0);
    assert forall|i: int| 0 <= i < line.len() implies #[trigger] line[i] != '\n' by {
        assert(line[i] == s[pos + i]);
    }
    if continued(line) {
        let f = folded(line);
        let short = line.drop_last();
        text::lemma_drop_space(short, short.len() as int);
        assert forall|i: int| 0 <= i < f.len() implies #[trigger] f[i] != '\n' by {
            if i < f.len() - 1 {
                assert(f[i] == line[i]);
            }
        }
        if next < s.len() {
            lemma_logical_text(s, next);
            let rest = logical(s, next).0;
            let all = f + rest;
            if all.contains('\n') {
                let i = choose|i: int| 0 <= i < all.len() && all[i] == '\n';
                if i >= f.len() {
                    assert(rest[i - f.len()] == '\n');
                    assert(rest.contains('\n'));
                }
            }
        }
    }
}

proof fn lemma_line_chars(s: Seq<char>, i: int)
    requires
        0 <= i <= s.len(),
    ensures
        forall|j: int| i <= j < line_end(s, i) ==> #[trigger] s[j] != '\n',
        line_end(s, i) < s.len() ==> s[line_end(s, i)] == '\n',
    decreases s.len() - i,
{
    if i < s.len() && s[i] != '\n' {
        lemma_line_chars(s, i + 1);
    }
}

proof fn lemma_line_end_at(s: Seq<char>, i: int, n: int)
    requires
        0 <= i <= n <= s.len(),
        n < s.len() ==> s[n] == '\n',
        forall|j: int| i <= j < n ==> #[trigger] s[j] != '\n',
    ensures
        line_end(s, i) == n,
    decreases n - i,
{
    if i < n {
        lemma_line_end_at(s, i + 1, n);
    }
}

proof fn lemma_comment_at(s: Seq<char>, i: int, n: int)
    requires
        0 <= i <= n <= s.len(),
        n < s.len() ==> s[n] == '#' && (n == 0 || s[n - 1] != '\\'),
        forall|j: int| i <= j < n ==> #[trigger] s[j] != '#',
    ensures
        comment_start(s, i) == n,
    decreases n - i,
{
    if i < n {
        lemma_comment_at(s, i + 1, n);
    }
}

/// From a `#` on, the rest of a line is dropped.
pub proof fn lemma_comment(before: Seq<char>, after: Seq<char>)
    requires
        !before.contains('#'),
        !before.contains('\n'),
        !after.contains('\n'),
        before.len() > 0 ==> before.last() != '\\',
    ensures
        logical_lines(before + seq!['#'] + after) == seq![
            LogicalLineView { text: before, line: 1 },
        ],
{
    let s = before + seq!['#'] + after;
    let n = before.len() as int;
    assert forall|j: int| 0 <= j < s.len() implies #[trigger] s[j] != '\n' by {
        if j < n {
            assert(before.contains(before[j]));
        } else if j > n {
            assert(after.contains(after[j - n - 1]));
        }
    }
    lemma_line_end_at(s, 0, s.len() as int);
    let line = s.subrange(0, s.len() as int);
    assert(line =~= s);
    assert forall|j: int| 0 <= j < n implies #[trigger] s[j] != '#' by {
        assert(before.contains(before[j]));
    }
    lemma_comment_at(s, 0, n);
    assert(s.take(n) =~= before);
    assert(lines_from(s, s.len() as int, 2) =~= seq![]);
    assert(logical_lines(s) =~= seq![LogicalLineView { text: before, line: 1 }]);
}

proof fn lemma_logical_shift(s: Seq<char>, t: Seq<char>, n: int, i: int)
    requires
        0 <= n,
        0 <= i < t.len(),
        s.len() == n + t.len(),
        s.skip(n) == t,
    ensures
        logical(s, n + i).0 == logical(t, i).0,
        logical(s, n + i).1 == n + logical(t, i).1,
        logical(s, n + i).2 == logical(t, i).2,
    decreases t.len() - i,
{
    assert forall|j: int| 0 <= j < t.len() implies s[n + j] == #[trigger] t[j] by {
        assert(t[j] == s.skip(n)[j]);
    }
    lemma_line_end(t, i);
    lemma_line_chars(t, i);
    let e = line_end(t, i);
    assert forall|j: int| n + i <= j < n + e implies #[trigger] s[j] != '\n' by {
        assert(s[n + (j - n)] == t[j - n]);
    }
    if e < t.len() {
        assert(s[n + e] == t[e]);
    }
    lemma_line_end_at(s, n + i, n + e);
    assert(s.subrange(n + i, n + e) =~= t.subrange(i, e));
    let next = following(t, i);
    if continued(physical(t, i)) && next < t.len() {
        lemma_logical_shift(s, t, n, next);
    }
}

/// A `\` at the end of a line joins it to the next: one space takes the place of
/// both and of the whitespace before the `\`. The line that results counts as one
/// more than what it is joined to.
pub proof fn lemma_continuation(line: Seq<char>, rest: Seq<char>)
    requires
        !line.contains('\n'),
        !line.contains('#'),
        rest.len() > 0,
    ensures
        logical(line + seq!['\\', '\n'] + rest, 0).0 == text::trim_end(line) + seq![' '] + logical(
            rest,
            0,
        ).0,
        logical(line + seq!['\\', '\n'] + rest, 0).2 == logical(rest, 0).2 + 1,
{
    let s = line + seq!['\\', '\n'] + rest;
    let n = line.len() as int;
    assert(s[n] == '\\');
    assert(s[n + 1] == '\n');
    assert forall|j: int| 0 <= j < n + 1 implies #[trigger] s[j] != '\n' by {
        if j < n {
            assert(line.contains(line[j]));
        }
    }
    lemma_line_end_at(s, 0, n + 1);
    let p = s.subrange(0, n + 1);
    assert forall|j: int| 0 <= j < n + 1 implies #[trigger] p[j] != '#' by {
        if j < n {
            assert(line.contains(line[j]));
            assert(p[j] == line[j]);
        }
    }
    lemma_comment_at(p, 0, n + 1);
    assert(p.take(n + 1) =~= p);
    assert(p.drop_last() =~= line);
    assert(s.skip(n + 2) =~= rest);
    lemma_logical_shift(s, rest, n + 2, 0);
}

/// A comment begins at the first `#` that has no `\` right before it; a line without one is
/// kept whole.
pub proof fn lemma_uncommented(s: Seq<char>, n: int)
    requires
        0 <= n <= s.len(),
        n < s.len() ==> s[n] == '#' && (n == 0 || s[n - 1] != '\\'),
        forall|j: int| 0 <= j < n && #[trigger] s[j] == '#' ==> j > 0 && s[j - 1] == '\\',
    ensures
        uncommented(s) == s.take(n),
{
    lemma_comment_found(s, 0, n);
}

proof fn lemma_comment_found(s: Seq<char>, i: int, n: int)
    requires
        0 <= i <= n <= s.len(),
        n < s.len() ==> s[n] == '#' && (n == 0 || s[n - 1] != '\\'),
        forall|j: int| 0 <= j < n && #[trigger] s[j] == '#' ==> j > 0 && s[j - 1] == '\\',
    ensures
        comment_start(s, i) == n,
    decreases n - i,
{
    if i < n {
        assert(s[i] == '#' ==> i > 0 && s[i - 1] == '\\');
        lemma_comment_found(s, i + 1, n);
    }
}

/// A newline ends a line: what stands before it, without its comment, is a logical line of
/// its own unless it ends with a `\`, and the lines behind it are those of the text
/// behind it, each one line further down.
pub proof fn lemma_line_by_line(a: Seq<char>, rest: Seq<char>)
    requires
        !a.contains('\n'),
        uncommented(a).len() == 0 || uncommented(a).last() != '\\',
    ensures
        ({
            let all = logical_lines(a + seq!['\n'] + rest);
            let more = logical_lines(rest);
            &&& all.len() == more.len() + 1
            &&& all[0] == (LogicalLineView { text: uncommented(a), line: 1 })
            &&& forall|i: int|
                0 <= i < more.len() ==> #[trigger] all[i + 1] == (LogicalLineView {
                    text: more[i].text,
                    line: more[i].line + 1,
                })
        }),
        logical_lines(Seq::<char>::empty()) == Seq::<LogicalLineView>::empty(),
{
    let s = a + seq!['\n'] + rest;
    let n = a.len() as int;
    assert forall|j: int| 0 <= j < n implies #[trigger] s[j] != '\n' by {
        assert(a.contains(a[j]));
    }
    assert(s[n] == '\n');
    lemma_line_end_at(s, 0, n);
    assert(s.subrange(0, n) =~= a);
    assert(s.skip(n + 1) =~= rest);
    assert(logical(s, 0) == (uncommented(a), n + 1, 1nat));
    lemma_lines_shift(s, rest, n + 1, 0, 1, 1);
}

proof fn lemma_lines_shift(s: Seq<char>, t: Seq<char>, n: int, i: int, line: nat, d: nat)
    requires
        0 <= n,
        0 <= i,
        s.len() == n + t.len(),
        s.skip(n) == t,
    ensures
        lines_from(s, n + i, line + d).len() == lines_from(t, i, line).len(),
        forall|j: int|
            0 <= j < lines_from(t, i, line).len() ==> #[trigger] lines_from(s, n + i, line + d)[j]
                == (LogicalLineView {
                text: lines_from(t, i, line)[j].text,
                line: lines_from(t, i, line)[j].line + d,
            }),
    decreases t.len() - i,
{
    if i < t.len() {
        lemma_logical(t, i);
        lemma_logical_shift(s, t, n, i);
        let l = logical(t, i);
        lemma_lines_shift(s, t, n, l.1, line + l.2, d);
        let a = lines_from(s, n + i, line + d);
        let b = lines_from(t, i, line);
        assert(line + d + l.2 == line + l.2 + d);
        assert forall|j: int| 0 <= j < b.len() implies #[trigger] a[j] == (LogicalLineView {
            text: b[j].text,
            line: b[j].line + d,
        }) by {
            if j > 0 {
                assert(a[j] == lines_from(s, n + l.1, line + l.2 + d)[j - 1]);
                assert(b[j] == lines_from(t, l.1, line + l.2)[j - 1]);
            }
        }
    }
}

} // verus!
