//! Conditionals: which lines are read and which are skipped.

use vstd::prelude::*;
use crate::error;
use crate::error::{ErrorView, Loc, LocView};
use crate::search;
use crate::search::begins_with;
use crate::text;
use crate::text::{chars_of, from, same_chars, string_of, trimmed, Dup};
use crate::world;
use crate::world::{AnswerView, Stop, StopView, Told, Transcript};
use super::assign;
use super::expand;
use super::expand::expand_chars;
use super::lines;
use super::lines::strip_directive;
use super::var::{VarTable, VarTableView};

verus! {

// ── Conditionals ────────────────────────────────────────────────────────────

/// A conditional frame for ifeq/ifdef nesting.
#[derive(Debug, Clone, Copy, PartialEq, Eq, Structural)]
pub struct CondFrame {
    /// Are we executing this branch (vs. skipping it)?
    pub active: bool,
    /// Have we already seen an `else`?
    pub seen_else: bool,
    /// Was the initial condition true? (controls else-branch activation)
    pub was_true: bool,
}

/// Whether lines are skipped: one of the branches that are open is not taken.
pub open spec fn is_skipping(conds: Seq<CondFrame>) -> bool {
    exists|i: int| 0 <= i < conds.len() && !(#[trigger] conds[i]).active
}

pub fn skipping(conds: &[CondFrame]) -> (r: bool)
    ensures
        r == is_skipping(conds@),
{
    let mut i: usize = 0;
    while i < conds.len()
        invariant
            i <= conds@.len(),
            forall|j: int| 0 <= j < i ==> (#[trigger] conds@[j]).active,
        decreases conds.len() - i,
    {
        if !conds[i].active {
            return true;
        }
        i = i + 1;
    }
    false
}

/// Whether the two sides of an `ifeq` are the same.
pub open spec fn sides_equal(
    vars: VarTableView,
    rest: Seq<char>,
    loc: LocView,
    log: Seq<AnswerView>,
    k: nat,
) -> Told<bool> {
    let c = lines::compared(rest);
    match assign::in_makefile(c.0, vars, loc, log, k) {
        Err(s) => Err(s),
        Ok(a) => match assign::in_makefile(c.1, vars, loc, log, a.1) {
            Err(s) => Err(s),
            Ok(b) => Ok((text::trim(a.0) == text::trim(b.0), b.1)),
        },
    }
}

/// Whether an `ifdef` names a variable with a value.
pub open spec fn is_defined(
    vars: VarTableView,
    rest: Seq<char>,
    loc: LocView,
    log: Seq<AnswerView>,
    k: nat,
) -> Told<bool> {
    match assign::in_makefile(rest, vars, loc, log, k) {
        Err(s) => Err(s),
        Ok(p) => Ok((vars.raw(text::trim(p.0)).len() > 0, p.1)),
    }
}

fn compare_sides(vars: &VarTable, rest: &[char], loc: &Loc, t: &mut Transcript) -> (r: Result<
    bool,
    Stop,
>)
    ensures
        world::tells(
            r,
            *old(t),
            *final(t),
            sides_equal(vars@, rest@, loc@, old(t).log(), old(t).at()),
        ),
{
    let (a, b) = lines::ifeq_sides(rest);
    let a = expand_chars(a.as_slice(), vars, None, loc, t)?;
    let b = expand_chars(b.as_slice(), vars, None, loc, t)?;
    Ok(same_chars(trimmed(a.as_slice()), trimmed(b.as_slice())))
}

fn defined(vars: &VarTable, rest: &[char], loc: &Loc, t: &mut Transcript) -> (r: Result<bool, Stop>)
    ensures
        world::tells(
            r,
            *old(t),
            *final(t),
            is_defined(vars@, rest@, loc@, old(t).log(), old(t).at()),
        ),
{
    let name = expand_chars(rest, vars, None, loc, t)?;
    let value = chars_of(vars.raw(string_of(trimmed(name.as_slice())).as_str()));
    Ok(value.len() > 0)
}

/// A kind of condition.
#[derive(Debug, Clone, Copy, PartialEq, Eq, Structural)]
pub enum Test {
    Equal,
    NotEqual,
    Defined,
    NotDefined,
}

/// Whether a condition holds.
pub open spec fn holds(
    test: Test,
    vars: VarTableView,
    rest: Seq<char>,
    loc: LocView,
    log: Seq<AnswerView>,
    k: nat,
) -> Told<bool> {
    let found = match test {
        Test::Equal | Test::NotEqual => sides_equal(vars, rest, loc, log, k),
        Test::Defined | Test::NotDefined => is_defined(vars, rest, loc, log, k),
    };
    match found {
        Err(s) => Err(s),
        Ok(p) => Ok((p.0 == (test == Test::Equal || test == Test::Defined), p.1)),
    }
}

fn evaluate(test: Test, vars: &VarTable, rest: &[char], loc: &Loc, t: &mut Transcript) -> (r: Result<
    bool,
    Stop,
>)
    ensures
        world::tells(
            r,
            *old(t),
            *final(t),
            holds(test, vars@, rest@, loc@, old(t).log(), old(t).at()),
        ),
{
    match test {
        Test::Equal => compare_sides(vars, rest, loc, t),
        Test::NotEqual => {
            let r = compare_sides(vars, rest, loc, t)?;
            Ok(!r)
        },
        Test::Defined => defined(vars, rest, loc, t),
        Test::NotDefined => {
            let r = defined(vars, rest, loc, t)?;
            Ok(!r)
        },
    }
}

/// What a line says about conditions.
#[derive(Debug, Clone, Copy, PartialEq, Eq, Structural)]
pub enum Keyword {
    If(Test),
    Else,
    Endif,
}

/// The conditional directive in a line, if there is one, and what stands behind
/// it.
pub open spec fn conditional(line: Seq<char>) -> Option<(Keyword, Seq<char>)> {
    if lines::is_directive(line, "ifeq"@) {
        Some((Keyword::If(Test::Equal), text::trim(line.skip("ifeq"@.len() as int))))
    } else if lines::is_directive(line, "ifneq"@) {
        Some((Keyword::If(Test::NotEqual), text::trim(line.skip("ifneq"@.len() as int))))
    } else if lines::is_directive(line, "ifdef"@) {
        Some((Keyword::If(Test::Defined), text::trim(line.skip("ifdef"@.len() as int))))
    } else if lines::is_directive(line, "ifndef"@) {
        Some((Keyword::If(Test::NotDefined), text::trim(line.skip("ifndef"@.len() as int))))
    } else if lines::is_directive(line, "else"@) {
        Some((Keyword::Else, text::trim(line.skip("else"@.len() as int))))
    } else if lines::is_directive(line, "endif"@) {
        Some((Keyword::Endif, seq![]))
    } else {
        None
    }
}

pub fn conditional_of(line: &[char]) -> (r: Option<(Keyword, Vec<char>)>)
    ensures
        match r {
            Some(p) => conditional(line@) == Some((p.0, p.1@)),
            None => conditional(line@) is None,
        },
{
    if let Some(rest) = strip_directive(line, "ifeq") {
        Some((Keyword::If(Test::Equal), vstd::slice::slice_to_vec(text::trimmed_end(rest))))
    } else if let Some(rest) = strip_directive(line, "ifneq") {
        Some((Keyword::If(Test::NotEqual), vstd::slice::slice_to_vec(text::trimmed_end(rest))))
    } else if let Some(rest) = strip_directive(line, "ifdef") {
        Some((Keyword::If(Test::Defined), vstd::slice::slice_to_vec(text::trimmed_end(rest))))
    } else if let Some(rest) = strip_directive(line, "ifndef") {
        Some((Keyword::If(Test::NotDefined), vstd::slice::slice_to_vec(text::trimmed_end(rest))))
    } else if let Some(rest) = strip_directive(line, "else") {
        Some((Keyword::Else, vstd::slice::slice_to_vec(text::trimmed_end(rest))))
    } else if let Some(_) = strip_directive(line, "endif") {
        Some((Keyword::Endif, Vec::new()))
    } else {
        None
    }
}

/// The condition that begins right behind an `else`, if one does.
pub open spec fn else_test(rest: Seq<char>) -> Option<Test> {
    if search::begins(rest, "ifeq"@) {
        Some(Test::Equal)
    } else if search::begins(rest, "ifneq"@) {
        Some(Test::NotEqual)
    } else if search::begins(rest, "ifdef"@) {
        Some(Test::Defined)
    } else if search::begins(rest, "ifndef"@) {
        Some(Test::NotDefined)
    } else {
        None
    }
}

fn test_after_else(rest: &[char]) -> (r: Option<Test>)
    ensures
        r == else_test(rest@),
{
    if begins_with(rest, "ifeq") {
        Some(Test::Equal)
    } else if begins_with(rest, "ifneq") {
        Some(Test::NotEqual)
    } else if begins_with(rest, "ifdef") {
        Some(Test::Defined)
    } else if begins_with(rest, "ifndef") {
        Some(Test::NotDefined)
    } else {
        None
    }
}

/// What `char::is_alphabetic` returns.
pub uninterp spec fn char_is_alphabetic(c: char) -> bool;

/// Calls `char::is_alphabetic`, which tells whether a character is alphabetic in
/// Unicode. Among the ASCII characters these are `a` to `z` and `A` to `Z`.
#[verifier::external_body]
fn alphabetic(c: char) -> (r: bool)
    ensures
        r == char_is_alphabetic(c),
        (c as u32) < 128 ==> r == ('a' <= c <= 'z' || 'A' <= c <= 'Z'),
{
    c.is_alphabetic()
}

/// Where the letters that go through `i` end.
pub open spec fn letters_end(s: Seq<char>, i: int) -> int
    decreases s.len() - i,
{
    if 0 <= i < s.len() && char_is_alphabetic(s[i]) {
        letters_end(s, i + 1)
    } else {
        i
    }
}

fn skip_letters(s: &[char]) -> (r: usize)
    ensures
        r == letters_end(s@, 0),
        r <= s@.len(),
{
    let mut i: usize = 0;
    while i < s.len() && alphabetic(s[i])
        invariant
            i <= s@.len(),
            letters_end(s@, 0) == letters_end(s@, i as int),
        decreases s.len() - i,
    {
        i = i + 1;
    }
    i
}

/// The conditions after an `else` with `rest` behind it.
pub open spec fn after_else(
    conds: Seq<CondFrame>,
    rest: Seq<char>,
    vars: VarTableView,
    loc: LocView,
    log: Seq<AnswerView>,
    k: nat,
) -> Told<Seq<CondFrame>> {
    if conds.len() == 0 || conds.last().seen_else {
        world::failed(ErrorView::FatalAt(loc, "extraneous else"@), k)
    } else {
        let f = conds.last();
        let outer = conds.drop_last();
        let taken = !is_skipping(outer);
        match else_test(rest) {
            Some(test) => if taken && !f.was_true {
                match holds(
                    test,
                    vars,
                    text::trim(rest.skip(letters_end(rest, 0))),
                    loc,
                    log,
                    k,
                ) {
                    Err(s) => Err(s),
                    Ok(p) => Ok(
                        (outer.push(CondFrame { active: p.0, was_true: p.0, ..f }), p.1),
                    ),
                }
            } else if taken {
                Ok((outer.push(CondFrame { active: false, ..f }), k))
            } else {
                Ok((conds, k))
            },
            None => Ok(
                (
                    outer.push(
                        CondFrame {
                            active: if taken {
                                !f.was_true
                            } else {
                                f.active
                            },
                            seen_else: true,
                            ..f
                        },
                    ),
                    k,
                ),
            ),
        }
    }
}

/// The conditions after a conditional directive.
pub open spec fn after_conditional(
    conds: Seq<CondFrame>,
    word: Keyword,
    rest: Seq<char>,
    vars: VarTableView,
    loc: LocView,
    log: Seq<AnswerView>,
    k: nat,
) -> Told<Seq<CondFrame>> {
    match word {
        Keyword::If(test) => {
            let found = if is_skipping(conds) {
                Ok((false, k))
            } else {
                holds(test, vars, rest, loc, log, k)
            };
            match found {
                Err(s) => Err(s),
                Ok(p) => Ok(
                    (
                        conds.push(
                            CondFrame { active: p.0, seen_else: false, was_true: p.0 },
                        ),
                        p.1,
                    ),
                ),
            }
        },
        Keyword::Else => after_else(conds, rest, vars, loc, log, k),
        Keyword::Endif => if conds.len() == 0 {
            world::failed(ErrorView::FatalAt(loc, "extraneous endif"@), k)
        } else {
            Ok((conds.drop_last(), k))
        },
    }
}

fn handle_else(
    conds: &mut Vec<CondFrame>,
    rest: &[char],
    vars: &VarTable,
    loc: &Loc,
    t: &mut Transcript,
) -> (r: Result<(), Stop>)
    ensures
        world::moves(
            r,
            *old(t),
            *final(t),
            final(conds)@,
            after_else(old(conds)@, rest@, vars@, loc@, old(t).log(), old(t).at()),
        ),
        r is Err ==> final(conds)@ == old(conds)@,
{
    if conds.len() == 0 || conds[conds.len() - 1].seen_else {
        return Err(Stop::Failed(error::fatal_at(loc.dup(), "extraneous else")));
    }
    let ghost all = conds@;
    let f = conds[conds.len() - 1];
    let _ = conds.pop();
    assert(conds@ =~= all.drop_last());
    let taken = !skipping(conds.as_slice());
    match test_after_else(rest) {
        Some(test) => {
            // else ifeq / else ifdef form: another else can follow
            if taken && !f.was_true {
                let n = skip_letters(rest);
                match evaluate(test, vars, trimmed(from(rest, n)), loc, t) {
                    Ok(now) => {
                        conds.push(
                            CondFrame { active: now, seen_else: f.seen_else, was_true: now },
                        );
                    },
                    Err(s) => {
                        conds.push(f);
                        assert(conds@ =~= all);
                        return Err(s);
                    },
                }
            } else if taken {
                conds.push(
                    CondFrame { active: false, seen_else: f.seen_else, was_true: f.was_true },
                );
            } else {
                conds.push(f);
                assert(conds@ =~= all);
            }
        },
        None => {
            let active = if taken {
                !f.was_true
            } else {
                f.active
            };
            conds.push(CondFrame { active, seen_else: true, was_true: f.was_true });
        },
    }
    Ok(())
}

pub fn handle_conditional(
    conds: &mut Vec<CondFrame>,
    word: Keyword,
    rest: &[char],
    vars: &VarTable,
    loc: &Loc,
    t: &mut Transcript,
) -> (r: Result<(), Stop>)
    ensures
        world::moves(
            r,
            *old(t),
            *final(t),
            final(conds)@,
            after_conditional(
                old(conds)@,
                word,
                rest@,
                vars@,
                loc@,
                old(t).log(),
                old(t).at(),
            ),
        ),
        r is Err ==> final(conds)@ == old(conds)@,
{
    match word {
        Keyword::If(test) => {
            let now = if skipping(conds.as_slice()) {
                false
            } else {
                evaluate(test, vars, rest, loc, t)?
            };
            conds.push(CondFrame { active: now, seen_else: false, was_true: now });
            Ok(())
        },
        Keyword::Else => handle_else(conds, rest, vars, loc, t),
        Keyword::Endif => {
            if conds.len() == 0 {
                return Err(Stop::Failed(error::fatal_at(loc.dup(), "extraneous endif")));
            }
            let ghost all = conds@;
            let _ = conds.pop();
            assert(conds@ =~= all.drop_last());
            Ok(())
        },
    }
}

// ── What holds of conditionals ──────────────────────────────────────────────

/// `ifneq` holds exactly where `ifeq` does not, and `ifndef` where `ifdef` does
/// not.
pub proof fn lemma_opposites(
    vars: VarTableView,
    rest: Seq<char>,
    loc: LocView,
    log: Seq<AnswerView>,
    k: nat,
)
    ensures
        match holds(Test::Equal, vars, rest, loc, log, k) {
            Ok(p) => holds(Test::NotEqual, vars, rest, loc, log, k) == Ok::<
                (bool, nat),
                (StopView, nat),
            >((!p.0, p.1)),
            Err(s) => holds(Test::NotEqual, vars, rest, loc, log, k) == Err::<
                (bool, nat),
                (StopView, nat),
            >(s),
        },
        match holds(Test::Defined, vars, rest, loc, log, k) {
            Ok(p) => holds(Test::NotDefined, vars, rest, loc, log, k) == Ok::<
                (bool, nat),
                (StopView, nat),
            >((!p.0, p.1)),
            Err(s) => holds(Test::NotDefined, vars, rest, loc, log, k) == Err::<
                (bool, nat),
                (StopView, nat),
            >(s),
        },
{
}

/// An `if` opens one branch more, and the `endif` after it leads back to where
/// it was. While lines are skipped no condition is looked at, and the branch is
/// skipped too.
pub proof fn lemma_if_endif(
    conds: Seq<CondFrame>,
    test: Test,
    rest: Seq<char>,
    vars: VarTableView,
    loc: LocView,
    log: Seq<AnswerView>,
    k: nat,
    more: Seq<char>,
    at: LocView,
    n: nat,
)
    ensures
        after_conditional(conds, Keyword::If(test), rest, vars, loc, log, k) matches Ok(p) ==> {
            &&& p.0.len() == conds.len() + 1
            &&& after_conditional(p.0, Keyword::Endif, more, vars, at, log, n) == Ok::<
                (Seq<CondFrame>, nat),
                (StopView, nat),
            >((conds, n))
            &&& is_skipping(conds) ==> p.1 == k && is_skipping(p.0)
        },
{
    if let Ok(p) = after_conditional(conds, Keyword::If(test), rest, vars, loc, log, k) {
        assert(p.0.drop_last() =~= conds);
        if is_skipping(conds) {
            let i = choose|i: int| 0 <= i < conds.len() && !(#[trigger] conds[i]).active;
            assert(p.0[i] == conds[i]);
        }
    }
}

/// Of an `if` and its plain `else` exactly one branch is read, unless the whole
/// of it is skipped.
pub proof fn lemma_else_flips(
    conds: Seq<CondFrame>,
    test: Test,
    rest: Seq<char>,
    vars: VarTableView,
    loc: LocView,
    log: Seq<AnswerView>,
    k: nat,
    more: Seq<char>,
    at: LocView,
    n: nat,
)
    requires
        else_test(more) is None,
    ensures
        after_conditional(conds, Keyword::If(test), rest, vars, loc, log, k) matches Ok(p) ==> {
            &&& after_conditional(p.0, Keyword::Else, more, vars, at, log, n) matches Ok(q)
            &&& q.1 == n
            &&& is_skipping(conds) ==> is_skipping(p.0) && is_skipping(q.0)
            &&& !is_skipping(conds) ==> is_skipping(q.0) == !is_skipping(p.0)
        },
{
    if let Ok(p) = after_conditional(conds, Keyword::If(test), rest, vars, loc, log, k) {
        assert(p.0.drop_last() =~= conds);
        let q = after_conditional(p.0, Keyword::Else, more, vars, at, log, n)->Ok_0;
        lemma_last_decides(conds, p.0.last());
        lemma_last_decides(conds, q.0.last());
        assert(p.0 =~= conds.push(p.0.last()));
        assert(q.0 =~= conds.push(q.0.last()));
    }
}

proof fn lemma_last_decides(conds: Seq<CondFrame>, f: CondFrame)
    ensures
        is_skipping(conds.push(f)) == (is_skipping(conds) || !f.active),
{
    let all = conds.push(f);
    if is_skipping(conds) {
        let i = choose|i: int| 0 <= i < conds.len() && !(#[trigger] conds[i]).active;
        assert(all[i] == conds[i]);
    }
    if !f.active {
        assert(all[conds.len() as int] == f);
    }
    if is_skipping(all) {
        let i = choose|i: int| 0 <= i < all.len() && !(#[trigger] all[i]).active;
        if i < conds.len() {
            assert(conds[i] == all[i]);
        }
    }
}

/// Whether it is noted of a branch that it was read.
pub open spec fn recorded(f: CondFrame) -> bool {
    f.active ==> f.was_true || f.seen_else
}

/// A branch behind an `else` is read only where no branch before it was; and
/// after the plain `else` there is no other.
pub proof fn lemma_one_branch(
    conds: Seq<CondFrame>,
    rest: Seq<char>,
    vars: VarTableView,
    loc: LocView,
    log: Seq<AnswerView>,
    k: nat,
)
    requires
        conds.len() > 0,
        recorded(conds.last()),
        !is_skipping(conds.drop_last()),
    ensures
        conds.last().seen_else ==> after_else(conds, rest, vars, loc, log, k) is Err,
        after_else(conds, rest, vars, loc, log, k) matches Ok(p) ==> {
            &&& p.0.len() == conds.len()
            &&& p.0.drop_last() == conds.drop_last()
            &&& recorded(p.0.last())
            &&& p.0.last().active ==> !conds.last().was_true && !conds.last().active
            &&& conds.last().was_true ==> p.0.last().was_true && !p.0.last().active
        },
{
    if let Ok(p) = after_else(conds, rest, vars, loc, log, k) {
        assert(p.0.drop_last() =~= conds.drop_last());
    }
}

// ── What conditions say ─────────────────────────────────────────────────────

/// `ifeq (A,B)` holds exactly where both sides, expanded one after the other and
/// without the blanks around them, are the same characters, be one of them empty or
/// not; `ifneq` holds exactly where they are not.
pub proof fn lemma_ifeq(
    a: Seq<char>,
    b: Seq<char>,
    vars: VarTableView,
    loc: LocView,
    log: Seq<AnswerView>,
    k: nat,
)
    requires
        forall|j: int| 0 <= j < a.len() && #[trigger] a[j] == ',' ==> lines::depth_of(a, j) > 0,
        lines::depth_of(a, a.len() as int) == 0,
    ensures
        ({
            let rest = seq!['('] + a + seq![','] + b + seq![')'];
            let left = assign::in_makefile(a, vars, loc, log, k);
            &&& left is Err ==> holds(Test::Equal, vars, rest, loc, log, k) is Err && holds(
                Test::NotEqual,
                vars,
                rest,
                loc,
                log,
                k,
            ) is Err
            &&& left matches Ok(x) ==> {
                let right = assign::in_makefile(b, vars, loc, log, x.1);
                &&& right is Err ==> holds(Test::Equal, vars, rest, loc, log, k) is Err
                &&& right matches Ok(y) ==> {
                    let same = text::trim(x.0).len() == text::trim(y.0).len() && forall|i: int|
                        0 <= i < text::trim(x.0).len() ==> #[trigger] text::trim(x.0)[i]
                            == text::trim(y.0)[i];
                    &&& holds(Test::Equal, vars, rest, loc, log, k) == Ok::<
                        (bool, nat),
                        (StopView, nat),
                    >((same, y.1))
                    &&& holds(Test::NotEqual, vars, rest, loc, log, k) == Ok::<
                        (bool, nat),
                        (StopView, nat),
                    >((!same, y.1))
                }
            }
        }),
{
    lines::lemma_compared_brackets(a, b);
    if let Ok(x) = assign::in_makefile(a, vars, loc, log, k) {
        if let Ok(y) = assign::in_makefile(b, vars, loc, log, x.1) {
            let p = text::trim(x.0);
            let q = text::trim(y.0);
            if p.len() == q.len() && forall|i: int| 0 <= i < p.len() ==> #[trigger] p[i] == q[i] {
                assert(p =~= q);
            }
        }
    }
}

/// For texts without references, `ifeq (a,b)` holds exactly where they are the same up
/// to the blanks around them, and takes no answer.
pub proof fn lemma_ifeq_plain(
    a: Seq<char>,
    b: Seq<char>,
    vars: VarTableView,
    loc: LocView,
    log: Seq<AnswerView>,
    k: nat,
)
    requires
        forall|j: int|
            0 <= j < a.len() ==> #[trigger] a[j] != '$' && a[j] != ',' && a[j] != '(' && a[j]
                != ')' && a[j] != '{' && a[j] != '}',
        forall|j: int| 0 <= j < b.len() ==> #[trigger] b[j] != '$',
    ensures
        ({
            let rest = seq!['('] + a + seq![','] + b + seq![')'];
            &&& holds(Test::Equal, vars, rest, loc, log, k) == Ok::<(bool, nat), (StopView, nat)>(
                (text::trim(a) == text::trim(b), k),
            )
            &&& holds(Test::NotEqual, vars, rest, loc, log, k) == Ok::<
                (bool, nat),
                (StopView, nat),
            >((text::trim(a) != text::trim(b), k))
        }),
{
    lemma_flat(a, a.len() as int);
    lines::lemma_compared_brackets(a, b);
    expand::lemma_plain_text(a, seq![], vars, None, loc, false, log, k);
    expand::lemma_plain_text(b, seq![], vars, None, loc, false, log, k);
}

proof fn lemma_flat(a: Seq<char>, n: int)
    requires
        0 <= n <= a.len(),
        forall|j: int|
            0 <= j < a.len() ==> #[trigger] a[j] != '(' && a[j] != ')' && a[j] != '{' && a[j]
                != '}',
    ensures
        lines::depth_of(a, n) == 0,
    decreases n,
{
    if n > 0 {
        lemma_flat(a, n - 1);
    }
}

/// `ifeq "a" "b"` compares the texts between the quotes, of either kind.
pub proof fn lemma_ifeq_quotes(
    q: char,
    a: Seq<char>,
    r: char,
    b: Seq<char>,
    vars: VarTableView,
    loc: LocView,
    log: Seq<AnswerView>,
    k: nat,
)
    requires
        q == '"' || q == '\'',
        r == '"' || r == '\'',
        !a.contains(q),
        !b.contains(r),
        !a.contains('$'),
        !b.contains('$'),
    ensures
        holds(
            Test::Equal,
            vars,
            seq![q] + a + seq![q, ' ', r] + b + seq![r],
            loc,
            log,
            k,
        ) == Ok::<(bool, nat), (StopView, nat)>((text::trim(a) == text::trim(b), k)),
{
    lines::lemma_compared_quotes(q, a, r, b);
    assert forall|j: int| 0 <= j < a.len() implies #[trigger] a[j] != '$' by {
        assert(a.contains(a[j]));
    }
    assert forall|j: int| 0 <= j < b.len() implies #[trigger] b[j] != '$' by {
        assert(b.contains(b[j]));
    }
    expand::lemma_plain_text(a, seq![], vars, None, loc, false, log, k);
    expand::lemma_plain_text(b, seq![], vars, None, loc, false, log, k);
}

/// `ifdef` holds exactly where the name that stands there has a value that is not
/// empty, whatever the value expands to; `ifndef` exactly where it has none.
pub proof fn lemma_ifdef(
    name: Seq<char>,
    vars: VarTableView,
    loc: LocView,
    log: Seq<AnswerView>,
    k: nat,
)
    requires
        !name.contains('$'),
        name.len() > 0 ==> !text::is_space(name[0]) && !text::is_space(name.last()),
    ensures
        ({
            let set = vars.vars.dom().contains(name) && vars.vars[name].raw.len() > 0;
            &&& holds(Test::Defined, vars, name, loc, log, k) == Ok::<
                (bool, nat),
                (StopView, nat),
            >((set, k))
            &&& holds(Test::NotDefined, vars, name, loc, log, k) == Ok::<
                (bool, nat),
                (StopView, nat),
            >((!set, k))
        }),
{
    assert forall|j: int| 0 <= j < name.len() implies #[trigger] name[j] != '$' by {
        assert(name.contains(name[j]));
    }
    expand::lemma_plain_text(name, seq![], vars, None, loc, false, log, k);
    text::lemma_trim_gives(seq![], name, seq![]);
    assert(Seq::<char>::empty() + name + Seq::<char>::empty() =~= name);
}

/// The words that begin a conditional line.
pub proof fn lemma_conditional_words(rest: Seq<char>)
    ensures
        conditional("ifeq"@ + seq![' '] + rest) == Some(
            (Keyword::If(Test::Equal), text::trim(seq![' '] + rest)),
        ),
        conditional("ifneq"@ + seq![' '] + rest) == Some(
            (Keyword::If(Test::NotEqual), text::trim(seq![' '] + rest)),
        ),
        conditional("ifdef"@ + seq![' '] + rest) == Some(
            (Keyword::If(Test::Defined), text::trim(seq![' '] + rest)),
        ),
        conditional("ifndef"@ + seq![' '] + rest) == Some(
            (Keyword::If(Test::NotDefined), text::trim(seq![' '] + rest)),
        ),
        conditional("else"@ + seq![' '] + rest) == Some(
            (Keyword::Else, text::trim(seq![' '] + rest)),
        ),
        conditional("else"@) == Some((Keyword::Else, Seq::<char>::empty())),
        conditional("endif"@) == Some((Keyword::Endif, Seq::<char>::empty())),
        conditional("endif"@ + seq![' '] + rest) == Some((Keyword::Endif, Seq::<char>::empty())),
{
    lemma_conditional_word("ifeq"@, rest);
    lemma_conditional_word("ifneq"@, rest);
    lemma_conditional_word("ifdef"@, rest);
    lemma_conditional_word("ifndef"@, rest);
    lemma_conditional_word("else"@, rest);
    lemma_conditional_word("endif"@, rest);
    let e = Seq::<char>::empty();
    text::lemma_trim_gives(e, e, e);
    assert(e + e + e =~= e);
    reveal_strlit("else");
    assert("else"@.skip(4) =~= e);
}

/// Whether one text is not the beginning of another.
spec fn parts_ways(s: Seq<char>, name: Seq<char>) -> bool {
    name.len() > s.len() || exists|i: int| 0 <= i < name.len() && #[trigger] s[i] != name[i]
}

proof fn lemma_parts_ways(s: Seq<char>, name: Seq<char>)
    requires
        parts_ways(s, name),
    ensures
        !lines::is_directive(s, name),
{
    if name.len() <= s.len() {
        let i = choose|i: int| 0 <= i < name.len() && #[trigger] s[i] != name[i];
        assert(s.subrange(0, name.len() as int)[i] == s[i]);
    }
}

proof fn lemma_conditional_word(name: Seq<char>, rest: Seq<char>)
    requires
        name == "ifeq"@ || name == "ifneq"@ || name == "ifdef"@ || name == "ifndef"@ || name
            == "else"@ || name == "endif"@,
    ensures
        ({
            let line = name + seq![' '] + rest;
            let behind = text::trim(seq![' '] + rest);
            &&& name == "ifeq"@ ==> conditional(line) == Some((Keyword::If(Test::Equal), behind))
            &&& name == "ifneq"@ ==> conditional(line) == Some(
                (Keyword::If(Test::NotEqual), behind),
            )
            &&& name == "ifdef"@ ==> conditional(line) == Some(
                (Keyword::If(Test::Defined), behind),
            )
            &&& name == "ifndef"@ ==> conditional(line) == Some(
                (Keyword::If(Test::NotDefined), behind),
            )
            &&& name == "else"@ ==> conditional(line) == Some((Keyword::Else, behind)) && (
            conditional(name) matches Some(p) && p.0 == Keyword::Else && p.1 == text::trim(
                name.skip(4),
            ))
            &&& name == "endif"@ ==> conditional(line) == Some(
                (Keyword::Endif, Seq::<char>::empty()),
            ) && conditional(name) == Some((Keyword::Endif, Seq::<char>::empty()))
        }),
{
    reveal_strlit("ifeq");
    reveal_strlit("ifneq");
    reveal_strlit("ifdef");
    reveal_strlit("ifndef");
    reveal_strlit("else");
    reveal_strlit("endif");
    let line = name + seq![' '] + rest;
    assert("ifeq"@[0] != "else"@[0]);
    assert("ifeq"@.len() == 4 && "else"@.len() == 4);
    assert("ifneq"@.len() == 5 && "ifdef"@.len() == 5 && "endif"@.len() == 5);
    assert("ifndef"@.len() == 6);
    assert("ifneq"@[2] != "ifdef"@[2] && "ifneq"@[0] != "endif"@[0]);
    assert("ifdef"@[0] != "endif"@[0]);
    assert(line.take(name.len() as int) =~= name);
    assert(name.take(name.len() as int) =~= name);
    lines::lemma_directive(line, name, rest);
    assert(line.skip(name.len() as int) =~= seq![' '] + rest);
    lemma_unlike(line, name);
    lemma_unlike(name, name);
}

proof fn lemma_unlike(s: Seq<char>, name: Seq<char>)
    requires
        name == "ifeq"@ || name == "ifneq"@ || name == "ifdef"@ || name == "ifndef"@ || name
            == "else"@ || name == "endif"@,
        name.len() <= s.len(),
        s.take(name.len() as int) == name,
    ensures
        name != "ifeq"@ ==> !lines::is_directive(s, "ifeq"@),
        name != "ifneq"@ ==> !lines::is_directive(s, "ifneq"@),
        name != "ifdef"@ ==> !lines::is_directive(s, "ifdef"@),
        name != "ifndef"@ ==> !lines::is_directive(s, "ifndef"@),
        name != "else"@ ==> !lines::is_directive(s, "else"@),
{
    reveal_strlit("ifeq");
    reveal_strlit("ifneq");
    reveal_strlit("ifdef");
    reveal_strlit("ifndef");
    reveal_strlit("else");
    reveal_strlit("endif");
    assert(s[0] == name[0]);
    assert(s[1] == name[1]);
    assert(s[2] == name[2]);
    assert(s[3] == name[3]);
    if name != "ifeq"@ {
        assert(s[0] != 'i' || s[2] != 'e');
        assert(s[0] != "ifeq"@[0] || s[2] != "ifeq"@[2]);
        assert(parts_ways(s, "ifeq"@));
        lemma_parts_ways(s, "ifeq"@);
    }
    if name != "ifneq"@ {
        assert(s[0] != "ifneq"@[0] || s[2] != "ifneq"@[2] || s[3] != "ifneq"@[3]);
        assert(parts_ways(s, "ifneq"@));
        lemma_parts_ways(s, "ifneq"@);
    }
    if name != "ifdef"@ {
        assert(s[0] != "ifdef"@[0] || s[2] != "ifdef"@[2]);
        assert(parts_ways(s, "ifdef"@));
        lemma_parts_ways(s, "ifdef"@);
    }
    if name != "ifndef"@ {
        assert(s[0] != "ifndef"@[0] || s[2] != "ifndef"@[2] || s[3] != "ifndef"@[3]);
        assert(parts_ways(s, "ifndef"@));
        lemma_parts_ways(s, "ifndef"@);
    }
    if name != "else"@ {
        assert(s[0] != "else"@[0] || s[1] != "else"@[1]);
        assert(parts_ways(s, "else"@));
        lemma_parts_ways(s, "else"@);
    }
}

/// Behind an `if` that stands among lines that are read, lines are read exactly where
/// its condition holds; while lines are skipped, they are skipped behind it too, and
/// its condition is not looked at.
pub proof fn lemma_if_reads(
    conds: Seq<CondFrame>,
    test: Test,
    rest: Seq<char>,
    vars: VarTableView,
    loc: LocView,
    log: Seq<AnswerView>,
    k: nat,
)
    requires
        forall|i: int| 0 <= i < conds.len() ==> (#[trigger] conds[i]).active,
    ensures
        match holds(test, vars, rest, loc, log, k) {
            Ok(p) => after_conditional(conds, Keyword::If(test), rest, vars, loc, log, k) matches Ok(
                q,
            ) && q.1 == p.1 && q.0.len() == conds.len() + 1 && q.0.last().active == p.0
                && q.0.last().was_true == p.0 && !q.0.last().seen_else && (forall|i: int|
                0 <= i < conds.len() ==> #[trigger] q.0[i] == conds[i]),
            Err(s) => after_conditional(conds, Keyword::If(test), rest, vars, loc, log, k) is Err,
        },
{
}

/// Whether lines are read: all branches that are open are taken.
pub proof fn lemma_reads(conds: Seq<CondFrame>)
    ensures
        !is_skipping(conds) <==> forall|i: int| 0 <= i < conds.len() ==> (#[trigger] conds[i]).active,
{
}

/// An `endif` or an `else` that belongs to no `if` is an error.
pub proof fn lemma_extraneous(
    rest: Seq<char>,
    vars: VarTableView,
    loc: LocView,
    log: Seq<AnswerView>,
    k: nat,
)
    ensures
        after_conditional(seq![], Keyword::Endif, rest, vars, loc, log, k) == Err::<
            (Seq<CondFrame>, nat),
            (StopView, nat),
        >((StopView::Failed(ErrorView::FatalAt(loc, "extraneous endif"@)), k)),
        after_conditional(seq![], Keyword::Else, rest, vars, loc, log, k) == Err::<
            (Seq<CondFrame>, nat),
            (StopView, nat),
        >((StopView::Failed(ErrorView::FatalAt(loc, "extraneous else"@)), k)),
{
}

/// A condition behind `else` decides where no branch before it was taken.
pub proof fn lemma_else_if(
    conds: Seq<CondFrame>,
    word: Seq<char>,
    test: Test,
    c: char,
    rest: Seq<char>,
    vars: VarTableView,
    loc: LocView,
    log: Seq<AnswerView>,
    k: nat,
)
    requires
        (word == "ifeq"@ && test == Test::Equal) || (word == "ifneq"@ && test == Test::NotEqual) || (
        word == "ifdef"@ && test == Test::Defined) || (word == "ifndef"@ && test
            == Test::NotDefined),
        forall|i: int| 0 <= i < word.len() ==> char_is_alphabetic(#[trigger] word[i]),
        !char_is_alphabetic(c),
        conds.len() > 0,
        !conds.last().seen_else,
        !conds.last().was_true,
        forall|i: int| 0 <= i < conds.len() - 1 ==> (#[trigger] conds[i]).active,
    ensures
        match holds(test, vars, text::trim(seq![c] + rest), loc, log, k) {
            Ok(p) => after_else(conds, word + seq![c] + rest, vars, loc, log, k) matches Ok(q)
                && q.1 == p.1 && q.0.len() == conds.len() && q.0.last().active == p.0
                && q.0.last().was_true == p.0,
            Err(s) => after_else(conds, word + seq![c] + rest, vars, loc, log, k) is Err,
        },
{
    let s = word + seq![c] + rest;
    let n = word.len() as int;
    reveal_strlit("ifeq");
    reveal_strlit("ifneq");
    reveal_strlit("ifdef");
    reveal_strlit("ifndef");
    assert(s[n] == c);
    assert forall|i: int| 0 <= i < n implies #[trigger] s[i] == word[i] by {}
    lemma_letters(s, 0, n);
    assert(s.skip(n) =~= seq![c] + rest);
    assert(s.subrange(0, n) =~= word);
    assert(search::begins(s, word));
    assert(s[2] == word[2] && s[3] == word[3]);
    if word != "ifeq"@ {
        assert(s.subrange(0, 4)[2] == s[2]);
    }
    if word != "ifneq"@ && s.len() >= 5 {
        assert(s.subrange(0, 5)[2] == s[2]);
        assert(s.subrange(0, 5)[3] == s[3]);
    }
    if word != "ifdef"@ && s.len() >= 5 {
        assert(s.subrange(0, 5)[2] == s[2]);
    }
    assert(else_test(s) == Some(test));
    let outer = conds.drop_last();
    assert forall|i: int| 0 <= i < outer.len() implies (#[trigger] outer[i]).active by {
        assert(conds[i].active);
    }
}

proof fn lemma_letters(s: Seq<char>, i: int, n: int)
    requires
        0 <= i <= n < s.len(),
        forall|j: int| 0 <= j < n ==> char_is_alphabetic(#[trigger] s[j]),
        !char_is_alphabetic(s[n]),
    ensures
        letters_end(s, i) == n,
    decreases n - i,
{
    if i < n {
        lemma_letters(s, i + 1, n);
    }
}

} // verus!
