//! Rules, recipes and patterns.

use vstd::prelude::*;
use vstd::string::StrSliceExecFns;
use crate::error::{Loc, LocView};
use crate::search;
use crate::search::{at, between, find_char};
use crate::text;
use crate::text::{append, chars_of, dup_all, from, owned, same_chars, string_of, upto, Dup};

verus! {

/// A single prerequisite, either normal or order-only (after `|`).
#[derive(Debug, PartialEq, Eq)]
pub struct Prereq {
    pub name: String,
    /// True when the prereq appeared after a `|` separator.
    pub order_only: bool,
}

#[verifier::ext_equal]
pub struct PrereqView {
    pub name: Seq<char>,
    pub order_only: bool,
}

impl View for Prereq {
    type V = PrereqView;

    open spec fn view(&self) -> PrereqView {
        PrereqView { name: self.name@, order_only: self.order_only }
    }
}

impl Dup for Prereq {
    fn dup(&self) -> (r: Self) {
        Prereq { name: self.name.dup(), order_only: self.order_only }
    }
}

impl Clone for Prereq {
    fn clone(&self) -> (r: Self)
        ensures
            r@ == self@,
    {
        self.dup()
    }
}

impl Prereq {
    pub fn normal(name: &str) -> (r: Self)
        ensures
            r@ == (PrereqView { name: name@, order_only: false }),
    {
        Prereq { name: owned(name), order_only: false }
    }

    pub fn order_only(name: &str) -> (r: Self)
        ensures
            r@ == (PrereqView { name: name@, order_only: true }),
    {
        Prereq { name: owned(name), order_only: true }
    }
}

/// A single line of a recipe.
#[derive(Debug)]
pub struct RecipeLine {
    pub text: String,
    /// `@` prefix — do not print the command before running it.
    pub silent: bool,
    /// `-` prefix — continue even if the command exits non-zero.
    pub ignore_error: bool,
    /// `+` prefix — run even in dry-run (`-n`) mode.
    pub always_run: bool,
}

#[verifier::ext_equal]
pub struct RecipeLineView {
    pub text: Seq<char>,
    pub silent: bool,
    pub ignore_error: bool,
    pub always_run: bool,
}

impl View for RecipeLine {
    type V = RecipeLineView;

    open spec fn view(&self) -> RecipeLineView {
        RecipeLineView {
            text: self.text@,
            silent: self.silent,
            ignore_error: self.ignore_error,
            always_run: self.always_run,
        }
    }
}

impl Dup for RecipeLine {
    fn dup(&self) -> (r: Self) {
        RecipeLine {
            text: self.text.dup(),
            silent: self.silent,
            ignore_error: self.ignore_error,
            always_run: self.always_run,
        }
    }
}

impl Clone for RecipeLine {
    fn clone(&self) -> (r: Self)
        ensures
            r@ == self@,
    {
        self.dup()
    }
}

/// Whether a character before a command says how to run it.
pub open spec fn is_mark(c: char) -> bool {
    c == '@' || c == '-' || c == '+'
}

/// Where the command begins, after the marks at `i` and behind it.
pub open spec fn marks_end(s: Seq<char>, i: int) -> int
    decreases s.len() - i,
{
    if 0 <= i < s.len() && is_mark(s[i]) {
        marks_end(s, i + 1)
    } else {
        i
    }
}

/// The recipe line that a text stands for: marks, in any order, and the command.
pub open spec fn recipe_line(s: Seq<char>) -> RecipeLineView {
    let n = marks_end(s, 0);
    RecipeLineView {
        text: s.skip(n),
        silent: s.take(n).contains('@'),
        ignore_error: s.take(n).contains('-'),
        always_run: s.take(n).contains('+'),
    }
}

impl RecipeLine {
    pub fn new(raw: &str) -> (r: Self)
        ensures
            r@ == recipe_line(raw@),
    {
        let s = chars_of(raw);
        let mut silent = false;
        let mut ignore_error = false;
        let mut always_run = false;
        let mut i: usize = 0;
        while i < s.len() && (s[i] == '@' || s[i] == '-' || s[i] == '+')
            invariant
                s@ == raw@,
                i <= s@.len(),
                marks_end(s@, 0) == marks_end(s@, i as int),
                silent == s@.take(i as int).contains('@'),
                ignore_error == s@.take(i as int).contains('-'),
                always_run == s@.take(i as int).contains('+'),
            decreases s.len() - i,
        {
            let ghost c = s@[i as int];
            proof {
                let a = s@.take(i as int);
                let b = s@.take(i + 1);
                assert(b =~= a.push(c));
                assert forall|x: char| b.contains(x) == (a.contains(x) || x == c) by {
                    if a.contains(x) {
                        let k = choose|k: int| 0 <= k < a.len() && a[k] == x;
                        assert(b[k] == x);
                    }
                    assert(b[i as int] == c);
                }
            }
            if s[i] == '@' {
                silent = true;
            } else if s[i] == '-' {
                ignore_error = true;
            } else {
                always_run = true;
            }
            i = i + 1;
        }
        RecipeLine { text: string_of(from(s.as_slice(), i)), silent, ignore_error, always_run }
    }
}

/// Marks before a command add up, and none of them is left in the command.
pub proof fn lemma_marks(s: Seq<char>, c: char)
    requires
        is_mark(c),
    ensures
        recipe_line(seq![c] + s) == (RecipeLineView {
            text: recipe_line(s).text,
            silent: c == '@' || recipe_line(s).silent,
            ignore_error: c == '-' || recipe_line(s).ignore_error,
            always_run: c == '+' || recipe_line(s).always_run,
        }),
        recipe_line(s).text.len() > 0 ==> !is_mark(recipe_line(s).text[0]),
{
    let t = seq![c] + s;
    lemma_marks_shift(s, c, 0);
    lemma_marks_end(s, 0);
    let n = marks_end(s, 0);
    assert(marks_end(t, 0) == marks_end(t, 1));
    assert(t.skip(n + 1) =~= s.skip(n));
    assert(t.take(n + 1) =~= seq![c] + s.take(n));
    let u = t.take(n + 1);
    let v = s.take(n);
    assert forall|x: char| u.contains(x) == (x == c || v.contains(x)) by {
        assert(u[0] == c);
        if v.contains(x) {
            let k = choose|k: int| 0 <= k < v.len() && v[k] == x;
            assert(u[k + 1] == x);
        }
        if u.contains(x) && x != c {
            let k = choose|k: int| 0 <= k < u.len() && u[k] == x;
            assert(v[k - 1] == x);
        }
    }
}

proof fn lemma_marks_shift(s: Seq<char>, c: char, i: int)
    requires
        0 <= i <= s.len(),
    ensures
        marks_end(seq![c] + s, i + 1) == marks_end(s, i) + 1,
    decreases s.len() - i,
{
    if i < s.len() {
        assert((seq![c] + s)[i + 1] == s[i]);
        if is_mark(s[i]) {
            lemma_marks_shift(s, c, i + 1);
        }
    }
}

proof fn lemma_marks_end(s: Seq<char>, i: int)
    requires
        0 <= i <= s.len(),
    ensures
        i <= marks_end(s, i) <= s.len(),
        marks_end(s, i) < s.len() ==> !is_mark(s[marks_end(s, i)]),
    decreases s.len() - i,
{
    if i < s.len() && is_mark(s[i]) {
        lemma_marks_end(s, i + 1);
    }
}

/// A parsed explicit rule (single-colon or double-colon).
#[derive(Debug)]
pub struct Rule {
    pub targets: Vec<String>,
    pub prereqs: Vec<Prereq>,
    pub recipe: Vec<RecipeLine>,
    /// True when the rule used `::` instead of `:`.
    pub double_colon: bool,
    pub loc: Loc,
}

#[verifier::ext_equal]
pub struct RuleView {
    pub targets: Seq<Seq<char>>,
    pub prereqs: Seq<PrereqView>,
    pub recipe: Seq<RecipeLineView>,
    pub double_colon: bool,
    pub loc: LocView,
}

impl View for Rule {
    type V = RuleView;

    open spec fn view(&self) -> RuleView {
        RuleView {
            targets: text::views(self.targets@),
            prereqs: text::views(self.prereqs@),
            recipe: text::views(self.recipe@),
            double_colon: self.double_colon,
            loc: self.loc@,
        }
    }
}

impl Dup for Rule {
    fn dup(&self) -> (r: Self) {
        Rule {
            targets: dup_all(self.targets.as_slice()),
            prereqs: dup_all(self.prereqs.as_slice()),
            recipe: dup_all(self.recipe.as_slice()),
            double_colon: self.double_colon,
            loc: self.loc.dup(),
        }
    }
}

impl Clone for Rule {
    fn clone(&self) -> (r: Self)
        ensures
            r@ == self@,
    {
        self.dup()
    }
}

impl Rule {
    pub fn new(
        targets: Vec<String>,
        prereqs: Vec<Prereq>,
        double_colon: bool,
        loc: Loc,
    ) -> (r: Self)
        ensures
            r@ == (RuleView {
                targets: text::views(targets@),
                prereqs: text::views(prereqs@),
                recipe: seq![],
                double_colon,
                loc: loc@,
            }),
    {
        broadcast use text::group_views;

        Rule { targets, prereqs, recipe: Vec::new(), double_colon, loc }
    }
}

/// A pattern rule (implicit): `%.o: %.c` or the translated form of a suffix rule.
#[derive(Debug)]
pub struct PatternRule {
    /// Target pattern, e.g. `"%.o"`.
    pub target: String,
    /// Prerequisite patterns, e.g. `["%.c"]`.
    pub prereqs: Vec<String>,
    pub recipe: Vec<RecipeLine>,
    pub is_builtin: bool,
    pub loc: Loc,
}

#[verifier::ext_equal]
pub struct PatternRuleView {
    pub target: Seq<char>,
    pub prereqs: Seq<Seq<char>>,
    pub recipe: Seq<RecipeLineView>,
    pub is_builtin: bool,
    pub loc: LocView,
}

impl View for PatternRule {
    type V = PatternRuleView;

    open spec fn view(&self) -> PatternRuleView {
        PatternRuleView {
            target: self.target@,
            prereqs: text::views(self.prereqs@),
            recipe: text::views(self.recipe@),
            is_builtin: self.is_builtin,
            loc: self.loc@,
        }
    }
}

impl Dup for PatternRule {
    fn dup(&self) -> (r: Self) {
        PatternRule {
            target: self.target.dup(),
            prereqs: dup_all(self.prereqs.as_slice()),
            recipe: dup_all(self.recipe.as_slice()),
            is_builtin: self.is_builtin,
            loc: self.loc.dup(),
        }
    }
}

impl Clone for PatternRule {
    fn clone(&self) -> (r: Self)
        ensures
            r@ == self@,
    {
        self.dup()
    }
}

// ── Patterns ────────────────────────────────────────────────────────────────

/// The part of `target` that the first `%` of `pattern` stands for, if the
/// rest of the pattern matches. A pattern without `%` matches only itself.
pub open spec fn stem(target: Seq<char>, pattern: Seq<char>) -> Option<Seq<char>> {
    match pattern.index_of_first('%') {
        None => if target == pattern {
            Some(seq![])
        } else {
            None
        },
        Some(p) => {
            let prefix = pattern.take(p);
            let suffix = pattern.skip(p + 1);
            if prefix.len() + suffix.len() <= target.len() && search::begins(target, prefix)
                && search::ends(target, suffix) {
                Some(target.subrange(prefix.len() as int, target.len() - suffix.len()))
            } else {
                None
            }
        },
    }
}

/// `pattern` with its first `%`, if it has one, replaced by `stem`.
pub open spec fn applied(pattern: Seq<char>, stem: Seq<char>) -> Seq<char> {
    match pattern.index_of_first('%') {
        None => pattern,
        Some(p) => pattern.take(p) + stem + pattern.skip(p + 1),
    }
}

/// Matches a name against a pattern; gives where the stem begins and ends.
pub fn match_chars(target: &[char], pattern: &[char]) -> (r: Option<(usize, usize)>)
    ensures
        match r {
            Some(p) => p.0 <= p.1 <= target@.len() && stem(target@, pattern@) == Some(
                target@.subrange(p.0 as int, p.1 as int),
            ),
            None => stem(target@, pattern@) is None,
        },
{
    match find_char(pattern, '%') {
        None => if same_chars(target, pattern) {
            proof {
                assert(target@.subrange(0, 0) =~= seq![]);
            }
            Some((0, 0))
        } else {
            None
        },
        Some(p) => {
            let prefix = upto(pattern, p);
            let suffix = from(pattern, p + 1);
            if target.len() < prefix.len() || target.len() - prefix.len() < suffix.len() {
                return None;
            }
            if !at(target, prefix, 0) || !at(target, suffix, target.len() - suffix.len()) {
                return None;
            }
            Some((prefix.len(), target.len() - suffix.len()))
        },
    }
}

/// The stem for which a name matches a pattern, as text of its own.
pub fn stem_of(target: &[char], pattern: &[char]) -> (r: Option<Vec<char>>)
    ensures
        text::view_of(r) == stem(target@, pattern@),
{
    match match_chars(target, pattern) {
        Some(p) => Some(vstd::slice::slice_to_vec(between(target, p.0, p.1))),
        None => None,
    }
}

/// Whether a name matches a pattern.
pub fn fits(target: &[char], pattern: &[char]) -> (r: bool)
    ensures
        r == stem(target@, pattern@) is Some,
{
    match_chars(target, pattern).is_some()
}

/// Puts a stem in the place of the `%` of a pattern.
pub fn apply_chars(pattern: &[char], stem: &[char]) -> (r: Vec<char>)
    ensures
        r@ == applied(pattern@, stem@),
{
    match find_char(pattern, '%') {
        None => vstd::slice::slice_to_vec(pattern),
        Some(p) => {
            let mut out = vstd::slice::slice_to_vec(upto(pattern, p));
            append(&mut out, stem);
            append(&mut out, from(pattern, p + 1));
            out
        },
    }
}

/// Match a target name against a pattern containing exactly one `%`.
/// Returns the stem (the part that `%` matched) on success.
pub fn match_pattern<'a>(target: &'a str, pattern: &str) -> (r: Option<&'a str>)
    ensures
        match r {
            Some(s) => stem(target@, pattern@) == Some(s@),
            None => stem(target@, pattern@) is None,
        },
{
    let t = chars_of(target);
    let p = chars_of(pattern);
    match match_chars(t.as_slice(), p.as_slice()) {
        Some(range) => Some(target.substring_char(range.0, range.1)),
        None => None,
    }
}

/// Substitute the stem into a pattern (replace `%` with `stem`).
pub fn apply_pattern(pattern: &str, stem: &str) -> (r: String)
    ensures
        r@ == applied(pattern@, stem@),
{
    let p = chars_of(pattern);
    let s = chars_of(stem);
    let out = apply_chars(p.as_slice(), s.as_slice());
    string_of(out.as_slice())
}

/// A name matches a pattern with a `%` for a stem exactly where the stem put
/// into the pattern gives the name.
pub proof fn lemma_match_iff_applied(target: Seq<char>, pattern: Seq<char>, x: Seq<char>)
    requires
        pattern.contains('%'),
    ensures
        stem(target, pattern) == Some(x) <==> applied(pattern, x) == target,
{
    pattern.index_of_first_ensures('%');
    let p = pattern.index_of_first('%')->Some_0;
    let prefix = pattern.take(p);
    let suffix = pattern.skip(p + 1);
    if stem(target, pattern) == Some(x) {
        assert(target =~= target.subrange(0, prefix.len() as int) + x + target.subrange(
            target.len() - suffix.len(),
            target.len() as int,
        ));
    }
    if applied(pattern, x) == target {
        assert(target.subrange(0, prefix.len() as int) =~= prefix);
        assert(target.subrange(target.len() - suffix.len(), target.len() as int) =~= suffix);
        assert(target.subrange(prefix.len() as int, target.len() - suffix.len()) =~= x);
    }
}

/// A pattern without `%` matches itself alone, and a stem put into it changes
/// nothing.
pub proof fn lemma_match_plain(target: Seq<char>, pattern: Seq<char>, x: Seq<char>)
    requires
        !pattern.contains('%'),
    ensures
        stem(target, pattern) is Some <==> target == pattern,
        applied(pattern, x) == pattern,
{
    pattern.index_of_first_ensures('%');
}

/// A text with one `%` at least, split at its first `%`, matches whatever has
/// the two parts at its ends, and what lies between them is the stem; put back,
/// the stem gives the text again.
pub proof fn lemma_pattern_parts(pre: Seq<char>, post: Seq<char>, x: Seq<char>)
    requires
        !pre.contains('%'),
    ensures
        applied(pre + seq!['%'] + post, x) == pre + x + post,
        stem(pre + x + post, pre + seq!['%'] + post) == Some(x),
{
    let pattern = pre + seq!['%'] + post;
    let n = pre.len() as int;
    assert(pattern[n] == '%');
    assert(pattern.contains('%'));
    pattern.index_of_first_ensures('%');
    let p = pattern.index_of_first('%')->Some_0;
    assert(p == n) by {
        if p < n {
            assert(pre[p] == '%');
            assert(pre.contains('%'));
        }
    }
    assert(pattern.take(n) =~= pre);
    assert(pattern.skip(n + 1) =~= post);
    lemma_match_iff_applied(pre + x + post, pattern, x);
}

/// A name that does not have the two parts of a pattern at its ends, with room for
/// both, does not match it.
pub proof fn lemma_no_match(target: Seq<char>, pre: Seq<char>, post: Seq<char>)
    requires
        !pre.contains('%'),
        forall|x: Seq<char>| target != #[trigger] (pre + x) + post,
    ensures
        stem(target, pre + seq!['%'] + post) is None,
{
    let pattern = pre + seq!['%'] + post;
    assert(pattern[pre.len() as int] == '%');
    assert(pattern.contains('%'));
    if let Some(x) = stem(target, pattern) {
        lemma_match_iff_applied(target, pattern, x);
        lemma_pattern_parts(pre, post, x);
        assert(target == (pre + x) + post);
    }
}

/// A pattern without `%` has no stem to give away.
pub proof fn lemma_plain_stem(pattern: Seq<char>)
    requires
        !pattern.contains('%'),
    ensures
        stem(pattern, pattern) == Some(Seq::<char>::empty()),
{
    pattern.index_of_first_ensures('%');
}

/// Each of `@`, `-` and `+` before a command sets its own flag and no other; a
/// command that begins with none of them is kept as it stands, with no flag set.
pub proof fn lemma_marks_are_these(s: Seq<char>)
    ensures
        recipe_line(seq!['@'] + s) == (RecipeLineView { silent: true, ..recipe_line(s) }),
        recipe_line(seq!['-'] + s) == (RecipeLineView { ignore_error: true, ..recipe_line(s) }),
        recipe_line(seq!['+'] + s) == (RecipeLineView { always_run: true, ..recipe_line(s) }),
        s.len() == 0 || (s[0] != '@' && s[0] != '-' && s[0] != '+') ==> recipe_line(s) == (
        RecipeLineView { text: s, silent: false, ignore_error: false, always_run: false }),
{
    lemma_marks(s, '@');
    lemma_marks(s, '-');
    lemma_marks(s, '+');
    if s.len() == 0 || (s[0] != '@' && s[0] != '-' && s[0] != '+') {
        assert(marks_end(s, 0) == 0);
        assert(s.skip(0) =~= s);
        assert(s.take(0).len() == 0);
    }
}

} // verus!
