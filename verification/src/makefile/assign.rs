//! Assignments, and the other lines that change variables.

use vstd::prelude::*;
use crate::error::{Error, ErrorView, Loc, LocView};
use crate::search;
use crate::text;
use crate::text::{
    append,
    append_str,
    chars_of,
    same_text,
    split_words,
    string_of,
    trimmed,
    trimmed_start,
    Dup,
};
use crate::world;
use crate::world::{AnswerView, Stop, StopView, Told, Transcript};
use super::expand;
use super::expand::expand_chars;
use super::lines;
use super::lines::{contains_assign, split_assignment, strip_directive};
use super::var;
use super::var::{Flavor, Origin, Var, VarTable, VarTableView};

verus! {

// ── Assignments ─────────────────────────────────────────────────────────────

/// The expansion of a text in a makefile, outside of recipes.
pub open spec fn in_makefile(
    s: Seq<char>,
    vars: VarTableView,
    loc: LocView,
    log: Seq<AnswerView>,
    k: nat,
) -> Told<Seq<char>> {
    expand::expansion(s, vars, None, loc, false, log, k)
}

/// The value that an assignment gives, before precedence is looked at.
pub open spec fn assigned_raw(
    vars: VarTableView,
    name: Seq<char>,
    flavor: Flavor,
    value: Seq<char>,
    loc: LocView,
    log: Seq<AnswerView>,
    k: nat,
) -> Told<Seq<char>> {
    match flavor {
        Flavor::Simple => in_makefile(value, vars, loc, log, k),
        Flavor::Append => {
            let part = if vars.has(name) && vars.vars[name].flavor == Flavor::Simple {
                in_makefile(value, vars, loc, log, k)
            } else {
                Ok((value, k))
            };
            match part {
                Err(s) => Err(s),
                Ok(p) => if vars.raw(name).len() == 0 {
                    Ok(p)
                } else {
                    Ok((vars.raw(name) + " "@ + p.0, p.1))
                },
            }
        },
        _ => Ok((value, k)),
    }
}

/// The flavor with which an assigned variable is kept.
pub open spec fn kept_flavor(vars: VarTableView, name: Seq<char>, flavor: Flavor) -> Flavor {
    match flavor {
        Flavor::Append => if vars.has(name) {
            vars.vars[name].flavor
        } else {
            Flavor::Recursive
        },
        Flavor::Conditional => Flavor::Recursive,
        f => f,
    }
}

/// Whether a variable is one that no makefile changes: `CURDIR`, where it was set
/// before.
pub open spec fn fixed(vars: VarTableView, name: Seq<char>) -> bool {
    name == "CURDIR"@ && vars.has(name) && var::strength(vars.vars[name].origin) < var::strength(
        Origin::File,
    )
}

fn is_fixed(vars: &VarTable, name: &str) -> (r: bool)
    ensures
        r == fixed(vars@, name@),
{
    same_text(name, "CURDIR") && match vars.get(name) {
        Some(v) => v.origin.rank() < Origin::File.rank(),
        None => false,
    }
}

/// The variables after an assignment whose name is known. What the command line
/// has set is left alone, as is `CURDIR`, and so is, by `?=`, what has been set at
/// all.
pub open spec fn assigned_named(
    vars: VarTableView,
    name: Seq<char>,
    flavor: Flavor,
    value: Seq<char>,
    origin: Origin,
    loc: LocView,
    log: Seq<AnswerView>,
    k: nat,
) -> Told<VarTableView> {
    if fixed(vars, name) {
        Ok((vars, k))
    } else if vars.has(name) && vars.vars[name].origin == Origin::CommandLine && var::strength(
        origin,
    ) < var::strength(Origin::CommandLine) && flavor != Flavor::Append {
        Ok((vars, k))
    } else {
        match assigned_raw(vars, name, flavor, value, loc, log, k) {
            Err(s) => Err(s),
            Ok(p) => if flavor == Flavor::Conditional && vars.has(name) {
                Ok((vars, p.1))
            } else {
                Ok(
                    (
                        vars.set(
                            name,
                            var::plain_var(kept_flavor(vars, name, flavor), origin, p.0),
                        ),
                        p.1,
                    ),
                )
            },
        }
    }
}

/// The variables after the assignment in a line.
pub open spec fn assigned(
    vars: VarTableView,
    line: Seq<char>,
    origin: Origin,
    loc: LocView,
    log: Seq<AnswerView>,
    k: nat,
) -> Told<VarTableView> {
    match lines::assignment(line) {
        None => world::failed(
            ErrorView::FatalAt(loc, "could not parse assignment: "@ + line),
            k,
        ),
        Some(a) => match in_makefile(text::trim(a.name), vars, loc, log, k) {
            Err(s) => Err(s),
            Ok(p) => assigned_named(
                vars,
                text::trim(p.0),
                a.flavor,
                text::trim_start(a.value),
                origin,
                loc,
                log,
                p.1,
            ),
        },
    }
}

fn new_raw(
    vars: &VarTable,
    name: &str,
    flavor: Flavor,
    value: &[char],
    loc: &Loc,
    t: &mut Transcript,
) -> (r: Result<Vec<char>, Stop>)
    ensures
        world::tells(
            r,
            *old(t),
            *final(t),
            assigned_raw(vars@, name@, flavor, value@, loc@, old(t).log(), old(t).at()),
        ),
{
    match flavor {
        Flavor::Simple => expand_chars(value, vars, None, loc, t),
        Flavor::Append => {
            let simple = match vars.get(name) {
                Some(v) => match v.flavor {
                    Flavor::Simple => true,
                    _ => false,
                },
                None => false,
            };
            let part = if simple {
                expand_chars(value, vars, None, loc, t)?
            } else {
                vstd::slice::slice_to_vec(value)
            };
            let existing = chars_of(vars.raw(name));
            if existing.len() == 0 {
                Ok(part)
            } else {
                let mut v = existing;
                append_str(&mut v, " ");
                append(&mut v, part.as_slice());
                Ok(v)
            }
        },
        _ => Ok(vstd::slice::slice_to_vec(value)),
    }
}

fn assign_named(
    vars: &mut VarTable,
    name: &str,
    flavor: Flavor,
    value: &[char],
    origin: Origin,
    loc: &Loc,
    t: &mut Transcript,
) -> (r: Result<(), Stop>)
    ensures
        world::moves(
            r,
            *old(t),
            *final(t),
            final(vars)@,
            assigned_named(
                old(vars)@,
                name@,
                flavor,
                value@,
                origin,
                loc@,
                old(t).log(),
                old(t).at(),
            ),
        ),
        r is Err ==> final(vars)@ == old(vars)@,
{
    if is_fixed(vars, name) {
        return Ok(());
    }
    let mut existing: Option<Flavor> = None;
    if let Some(v) = vars.get(name) {
        existing = Some(v.flavor);
        if v.origin == Origin::CommandLine && origin.rank() < Origin::CommandLine.rank()
            && flavor != Flavor::Append {
            return Ok(());
        }
    }
    let raw = new_raw(vars, name, flavor, value, loc, t)?;
    // For conditional assignment: only set if undefined
    if flavor == Flavor::Conditional && existing.is_some() {
        return Ok(());
    }
    let kept = match flavor {
        Flavor::Append => match existing {
            Some(f) => f,
            None => Flavor::Recursive,
        },
        Flavor::Conditional => Flavor::Recursive,
        f => f,
    };
    vars.set(
        name,
        Var { flavor: kept, origin, raw: string_of(raw.as_slice()), exported: None },
    );
    Ok(())
}

pub fn handle_assignment(
    line: &[char],
    origin: Origin,
    vars: &mut VarTable,
    loc: &Loc,
    t: &mut Transcript,
) -> (r: Result<(), Stop>)
    ensures
        world::moves(
            r,
            *old(t),
            *final(t),
            final(vars)@,
            assigned(old(vars)@, line@, origin, loc@, old(t).log(), old(t).at()),
        ),
        r is Err ==> final(vars)@ == old(vars)@,
{
    match split_assignment(line) {
        None => {
            let mut msg = chars_of("could not parse assignment: ");
            append(&mut msg, line);
            Err(Stop::Failed(Error::FatalAt(loc.dup(), string_of(msg.as_slice()))))
        },
        Some(a) => {
            let name = expand_chars(trimmed(a.name), vars, None, loc, t)?;
            let name = string_of(trimmed(name.as_slice()));
            assign_named(
                vars,
                name.as_str(),
                a.flavor,
                trimmed_start(a.value),
                origin,
                loc,
                t,
            )
        },
    }
}

// ── define ──────────────────────────────────────────────────────────────────

/// The variables after a `define` whose lines make up `body`. With `+=` and `?=` it
/// is an assignment of that kind.
pub open spec fn defined(
    vars: VarTableView,
    name: Seq<char>,
    flavor: Flavor,
    body: Seq<char>,
    origin: Origin,
    loc: LocView,
    log: Seq<AnswerView>,
    k: nat,
) -> Told<VarTableView> {
    if flavor == Flavor::Append || flavor == Flavor::Conditional {
        assigned_named(vars, name, flavor, body, origin, loc, log, k)
    } else if fixed(vars, name) {
        Ok((vars, k))
    } else {
        Ok((vars.set(name, var::plain_var(flavor, origin, body)), k))
    }
}

pub(crate) fn define(
    vars: &mut VarTable,
    name: &str,
    flavor: Flavor,
    body: &str,
    origin: Origin,
    loc: &Loc,
    t: &mut Transcript,
) -> (r: Result<(), Stop>)
    ensures
        world::moves(
            r,
            *old(t),
            *final(t),
            final(vars)@,
            defined(
                old(vars)@,
                name@,
                flavor,
                body@,
                origin,
                loc@,
                old(t).log(),
                old(t).at(),
            ),
        ),
{
    if flavor == Flavor::Append || flavor == Flavor::Conditional {
        let value = chars_of(body);
        return assign_named(vars, name, flavor, value.as_slice(), origin, loc, t);
    }
    if !is_fixed(vars, name) {
        vars.set(name, Var::new(flavor, origin, body));
    }
    Ok(())
}

// ── export and its like ─────────────────────────────────────────────────────

/// The variables with the first `n` names exported or not.
pub open spec fn exported_all(
    vars: VarTableView,
    names: Seq<Seq<char>>,
    n: int,
    on: bool,
) -> VarTableView
    decreases n,
{
    if n <= 0 {
        vars
    } else {
        exported_all(vars, names, n - 1, on).set_exported(names[n - 1], Some(on))
    }
}

/// The variables after the names in a text were exported or not.
pub open spec fn exported_names(
    vars: VarTableView,
    s: Seq<char>,
    on: bool,
    loc: LocView,
    log: Seq<AnswerView>,
    k: nat,
) -> Told<VarTableView> {
    match in_makefile(text::trim(s), vars, loc, log, k) {
        Err(e) => Err(e),
        Ok(p) => {
            let names = text::words(p.0);
            Ok((exported_all(vars, names, names.len() as int, on), p.1))
        },
    }
}

pub fn export_names(
    vars: &mut VarTable,
    s: &[char],
    on: bool,
    loc: &Loc,
    t: &mut Transcript,
) -> (r: Result<(), Stop>)
    ensures
        world::moves(
            r,
            *old(t),
            *final(t),
            final(vars)@,
            exported_names(old(vars)@, s@, on, loc@, old(t).log(), old(t).at()),
        ),
        r is Err ==> final(vars)@ == old(vars)@,
{
    let text = expand_chars(trimmed(s), vars, None, loc, t)?;
    let words = split_words(text.as_slice());
    let ghost names = text::views(words@);
    let mut i: usize = 0;
    while i < words.len()
        invariant
            i <= words@.len(),
            names == text::views(words@),
            vars@ == exported_all(old(vars)@, names, i as int, on),
        decreases words.len() - i,
    {
        assert(names[i as int] == words@[i as int]@);
        vars.set_exported(string_of(words[i].as_slice()).as_str(), Some(on));
        i = i + 1;
    }
    Ok(())
}

/// The variables after an `export` with `rest` behind it.
pub open spec fn after_export(
    vars: VarTableView,
    rest: Seq<char>,
    loc: LocView,
    log: Seq<AnswerView>,
    k: nat,
) -> Told<VarTableView> {
    if rest.len() == 0 {
        Ok((VarTableView { export_all: true, ..vars }, k))
    } else if lines::is_directive(rest, "override"@) {
        let line = text::trim(lines::directive_rest(rest, "override"@));
        assigned(vars, line, Origin::Override, loc, log, k)
    } else if lines::assigns(rest, 0, 0) {
        match lines::assignment(rest) {
            None => assigned(vars, rest, Origin::File, loc, log, k),
            Some(a) => match in_makefile(text::trim(a.name), vars, loc, log, k) {
                Err(s) => Err(s),
                Ok(p) => {
                    let name = text::trim(p.0);
                    let value = text::trim_start(a.value);
                    match assigned_named(
                        vars,
                        name,
                        a.flavor,
                        value,
                        Origin::File,
                        loc,
                        log,
                        p.1,
                    ) {
                        Err(s) => Err(s),
                        Ok(q) => Ok((q.0.set_exported(name, Some(true)), q.1)),
                    }
                },
            },
        }
    } else {
        exported_names(vars, rest, true, loc, log, k)
    }
}

pub fn handle_export(vars: &mut VarTable, rest: &[char], loc: &Loc, t: &mut Transcript) -> (r: Result<
    (),
    Stop,
>)
    ensures
        world::moves(
            r,
            *old(t),
            *final(t),
            final(vars)@,
            after_export(old(vars)@, rest@, loc@, old(t).log(), old(t).at()),
        ),
        r is Err ==> final(vars)@ == old(vars)@,
{
    if rest.len() == 0 {
        // `export` alone: export all variables
        vars.export_everything();
        return Ok(());
    }
    if let Some(line) = strip_directive(rest, "override") {
        return handle_assignment(trimmed(line), Origin::Override, vars, loc, t);
    }
    if contains_assign(rest) {
        return match split_assignment(rest) {
            None => handle_assignment(rest, Origin::File, vars, loc, t),
            Some(a) => {
                let name = expand_chars(trimmed(a.name), vars, None, loc, t)?;
                let name = string_of(trimmed(name.as_slice()));
                let value = trimmed_start(a.value);
                assign_named(vars, name.as_str(), a.flavor, value, Origin::File, loc, t)?;
                vars.set_exported(name.as_str(), Some(true));
                Ok(())
            },
        };
    }
    export_names(vars, rest, true, loc, t)
}

/// The variables after an `undefine` with `rest` behind it.
pub open spec fn after_undefine(
    vars: VarTableView,
    rest: Seq<char>,
    loc: LocView,
    log: Seq<AnswerView>,
    k: nat,
) -> Told<VarTableView> {
    let u = lines::undefined(rest);
    match in_makefile(u.0, vars, loc, log, k) {
        Err(s) => Err(s),
        Ok(p) => {
            let name = text::trim(p.0);
            let origin = if u.1 {
                Origin::Override
            } else {
                Origin::File
            };
            if fixed(vars, name) {
                Ok((vars, p.1))
            } else {
                Ok((vars.undefine(name, origin), p.1))
            }
        },
    }
}

pub fn handle_undefine(vars: &mut VarTable, rest: &[char], loc: &Loc, t: &mut Transcript) -> (r: Result<
    (),
    Stop,
>)
    ensures
        world::moves(
            r,
            *old(t),
            *final(t),
            final(vars)@,
            after_undefine(old(vars)@, rest@, loc@, old(t).log(), old(t).at()),
        ),
        r is Err ==> final(vars)@ == old(vars)@,
{
    let (name_raw, strong) = lines::undefine_name(rest);
    let name = expand_chars(name_raw, vars, None, loc, t)?;
    let origin = if strong {
        Origin::Override
    } else {
        Origin::File
    };
    let name = string_of(trimmed(name.as_slice()));
    if !is_fixed(vars, name.as_str()) {
        vars.undefine(name.as_str(), origin);
    }
    Ok(())
}

// ── What holds of assignments ───────────────────────────────────────────────

/// `?=` changes nothing where the variable is defined, and else defines it.
pub proof fn lemma_conditional(
    vars: VarTableView,
    name: Seq<char>,
    value: Seq<char>,
    origin: Origin,
    loc: LocView,
    log: Seq<AnswerView>,
    k: nat,
)
    ensures
        vars.has(name) ==> assigned_named(
            vars,
            name,
            Flavor::Conditional,
            value,
            origin,
            loc,
            log,
            k,
        ) == Ok::<(VarTableView, nat), (StopView, nat)>((vars, k)),
        !vars.has(name) ==> assigned_named(
            vars,
            name,
            Flavor::Conditional,
            value,
            origin,
            loc,
            log,
            k,
        ) == Ok::<(VarTableView, nat), (StopView, nat)>(
            (vars.put(name, var::plain_var(Flavor::Recursive, origin, value)), k),
        ),
{
}

/// `+=` puts a space and the new text behind the value of a variable that is
/// expanded when it is used, as it stands. It defines the variable where there
/// is none.
pub proof fn lemma_append(
    vars: VarTableView,
    name: Seq<char>,
    value: Seq<char>,
    origin: Origin,
    loc: LocView,
    log: Seq<AnswerView>,
    k: nat,
)
    requires
        vars.may_set(name, origin),
        !fixed(vars, name),
        vars.has(name) ==> vars.vars[name].flavor == Flavor::Recursive,
    ensures
        assigned_named(vars, name, Flavor::Append, value, origin, loc, log, k) == Ok::<
            (VarTableView, nat),
            (StopView, nat),
        >(
            (
                vars.put(
                    name,
                    var::plain_var(
                        Flavor::Recursive,
                        origin,
                        if vars.raw(name).len() == 0 {
                            value
                        } else {
                            vars.raw(name) + " "@ + value
                        },
                    ),
                ),
                k,
            ),
        ),
{
}

/// `=` keeps the text as it stands, and `:=` keeps what it expands to now.
pub proof fn lemma_set(
    vars: VarTableView,
    name: Seq<char>,
    value: Seq<char>,
    origin: Origin,
    loc: LocView,
    log: Seq<AnswerView>,
    k: nat,
)
    requires
        vars.may_set(name, origin),
        !fixed(vars, name),
    ensures
        assigned_named(vars, name, Flavor::Recursive, value, origin, loc, log, k) == Ok::<
            (VarTableView, nat),
            (StopView, nat),
        >((vars.put(name, var::plain_var(Flavor::Recursive, origin, value)), k)),
        match in_makefile(value, vars, loc, log, k) {
            Ok(p) => assigned_named(vars, name, Flavor::Simple, value, origin, loc, log, k)
                == Ok::<(VarTableView, nat), (StopView, nat)>(
                (vars.put(name, var::plain_var(Flavor::Simple, origin, p.0)), p.1),
            ),
            Err(s) => assigned_named(vars, name, Flavor::Simple, value, origin, loc, log, k)
                == Err::<(VarTableView, nat), (StopView, nat)>(s),
        },
{
}

/// What stands before the first operator names the variable, and what stands behind it is
/// its value, without the blanks before it.
pub proof fn lemma_assigned_line(
    name: Seq<char>,
    op: Seq<char>,
    flavor: Flavor,
    value: Seq<char>,
    vars: VarTableView,
    origin: Origin,
    loc: LocView,
    log: Seq<AnswerView>,
    k: nat,
)
    requires
        (op == seq!['='] && flavor == Flavor::Recursive) || (op == seq![':', '='] && flavor
            == Flavor::Simple) || (op == seq!['+', '='] && flavor == Flavor::Append) || (op == seq![
            '?',
            '=',
        ] && flavor == Flavor::Conditional),
        name.len() > 0,
        !text::is_space(name[0]),
        !text::is_space(name.last()),
        forall|j: int|
            0 <= j < name.len() ==> #[trigger] name[j] != '$' && name[j] != '=' && name[j] != '('
                && name[j] != ')' && name[j] != '{' && name[j] != '}',
    ensures
        assigned(vars, name + seq![' '] + op + value, origin, loc, log, k) == assigned_named(
            vars,
            name,
            flavor,
            text::trim_start(value),
            origin,
            loc,
            log,
            k,
        ),
{
    let s = name + seq![' '] + op + value;
    let n = name.len() as int;
    let i = n + 1;
    assert(s[n] == ' ');
    assert forall|j: int| 0 <= j < n implies s[j] == name[j] by {}
    assert(s[i] == op[0]);
    if op.len() > 1 {
        assert(s[i + 1] == '=');
    }
    lemma_shallow(s, i);
    assert(lines::sets_at(s, i));
    assert forall|j: int| 0 <= j < i && #[trigger] lines::sets_at(s, j) implies lines::depth_of(
        s,
        j,
    ) > 0 by {
        if j < n {
            assert(s[j] == name[j]);
            if j + 1 < n {
                assert(s[j + 1] == name[j + 1]);
            }
        }
    }
    lines::lemma_assignment_parts(s, i);
    assert(s.take(i) =~= Seq::<char>::empty() + name + seq![' ']);
    text::lemma_trim_gives(seq![], name, seq![' ']);
    text::lemma_trim_gives(seq![], name, seq![]);
    assert(Seq::<char>::empty() + name + Seq::<char>::empty() =~= name);
    expand::lemma_plain_text(name, seq![], vars, None, loc, false, log, k);
    assert(s.skip(i + op.len()) =~= value);
}

proof fn lemma_shallow(s: Seq<char>, n: int)
    requires
        0 <= n <= s.len(),
        forall|j: int|
            0 <= j < n ==> #[trigger] s[j] != '(' && s[j] != ')' && s[j] != '{' && s[j] != '}',
    ensures
        lines::depth_of(s, n) == 0,
    decreases n,
{
    if n > 0 {
        lemma_shallow(s, n - 1);
    }
}

/// `+=` expands what it adds to a simple variable, and puts it behind the value with a
/// space between; an empty value it replaces.
pub proof fn lemma_append_simple(
    vars: VarTableView,
    name: Seq<char>,
    value: Seq<char>,
    origin: Origin,
    loc: LocView,
    log: Seq<AnswerView>,
    k: nat,
)
    requires
        vars.vars.dom().contains(name),
        vars.vars[name].flavor is Simple,
        var::strength(vars.vars[name].origin) <= var::strength(origin),
        name != "CURDIR"@,
    ensures
        match in_makefile(value, vars, loc, log, k) {
            Ok(p) => assigned_named(vars, name, Flavor::Append, value, origin, loc, log, k)
                matches Ok(q) && q.1 == p.1 && q.0.vars == vars.vars.insert(
                name,
                var::VarView {
                    flavor: Flavor::Simple,
                    origin,
                    raw: if vars.vars[name].raw.len() == 0 {
                        p.0
                    } else {
                        vars.vars[name].raw + seq![' '] + p.0
                    },
                    exported: None,
                },
            ),
            Err(e) => assigned_named(vars, name, Flavor::Append, value, origin, loc, log, k) is Err,
        },
{
    reveal_strlit(" ");
    assert(" "@ =~= seq![' ']);
}

/// `export` and `unexport` with names mark each of them, wherever it stands in the list, and
/// no other.
pub proof fn lemma_exported_all(
    vars: VarTableView,
    names: Seq<Seq<char>>,
    n: int,
    on: bool,
    x: Seq<char>,
)
    requires
        0 <= n <= names.len(),
    ensures
        ({
            let u = exported_all(vars, names, n, on);
            &&& u.vars.dom() == vars.vars.dom()
            &&& u.export_all == vars.export_all
            &&& vars.vars.dom().contains(x) ==> u.vars[x] == (var::VarView {
                exported: if names.take(n).contains(x) {
                    Some(on)
                } else {
                    vars.vars[x].exported
                },
                ..vars.vars[x]
            })
        }),
    decreases n,
{
    if n > 0 {
        lemma_exported_all(vars, names, n - 1, on, x);
        let before = exported_all(vars, names, n - 1, on);
        let y = names[n - 1];
        assert(names.take(n) =~= names.take(n - 1).push(y));
        text::lemma_push_contains(names.take(n - 1), y);
        var::lemma_set_exported(before, y, Some(on));
    } else {
        assert(!names.take(0).contains(x));
    }
}

/// `export` alone exports all; with names it exports these, and with an assignment what is
/// assigned.
pub proof fn lemma_export(
    vars: VarTableView,
    name: Seq<char>,
    loc: LocView,
    log: Seq<AnswerView>,
    k: nat,
)
    requires
        text::is_word(name),
        forall|j: int| 0 <= j < name.len() ==> #[trigger] name[j] != '$' && name[j] != '=' && name[j] != ':',
        !lines::is_directive(name, "override"@),
    ensures
        after_export(vars, seq![], loc, log, k) == Ok::<(VarTableView, nat), (StopView, nat)>(
            (VarTableView { export_all: true, ..vars }, k),
        ),
        after_export(vars, name, loc, log, k) == Ok::<(VarTableView, nat), (StopView, nat)>(
            (vars.set_exported(name, Some(true)), k),
        ),
        exported_names(vars, name, false, loc, log, k) == Ok::<
            (VarTableView, nat),
            (StopView, nat),
        >((vars.set_exported(name, Some(false)), k)),
{
    lines::lemma_rule_or_assignment(name, 0);
    text::lemma_trim_gives(seq![], name, seq![]);
    assert(Seq::<char>::empty() + name + Seq::<char>::empty() =~= name);
    expand::lemma_plain_text(name, seq![], vars, None, loc, false, log, k);
    text::lemma_words_apart(' ', name, seq![]);
    reveal_with_fuel(exported_all, 2);
}

/// `undefine` takes a variable away where no stronger origin has set it, with `override`
/// also one that `override` has set.
pub proof fn lemma_undefine(
    vars: VarTableView,
    name: Seq<char>,
    loc: LocView,
    log: Seq<AnswerView>,
    k: nat,
)
    requires
        text::is_word(name),
        name != "CURDIR"@,
        forall|j: int| 0 <= j < name.len() ==> #[trigger] name[j] != '$',
    ensures
        after_undefine(vars, name, loc, log, k) == Ok::<(VarTableView, nat), (StopView, nat)>(
            (vars.undefine(name, Origin::File), k),
        ),
        after_undefine(vars, "override "@ + name, loc, log, k) == Ok::<
            (VarTableView, nat),
            (StopView, nat),
        >((vars.undefine(name, Origin::Override), k)),
{
    reveal_strlit("override ");
    let n = "override "@.len() as int;
    text::lemma_trim_gives(seq![], name, seq![]);
    assert(Seq::<char>::empty() + name + Seq::<char>::empty() =~= name);
    expand::lemma_plain_text(name, seq![], vars, None, loc, false, log, k);
    assert(text::skip_space(name, 0) == 0);
    assert(name.skip(0) =~= name);
    assert(!search::begins(name, "override "@)) by {
        if search::begins(name, "override "@) {
            assert(name.subrange(0, n)[8] == ' ');
            assert(name[8] == ' ');
        }
    }
    let s = "override "@ + name;
    assert(s[0] == 'o');
    assert(text::skip_space(s, 0) == 0);
    assert(s.skip(0) =~= s);
    assert(s.subrange(0, n) =~= "override "@);
    assert(s.skip(n) =~= name);
}

/// `=` keeps the text and `:=` what it expands to, where nothing stronger has set the
/// variable; what the command line has set, a makefile does not set again, and neither is
/// anything asked then.
pub proof fn lemma_assigned(
    vars: VarTableView,
    name: Seq<char>,
    value: Seq<char>,
    origin: Origin,
    loc: LocView,
    log: Seq<AnswerView>,
    k: nat,
)
    requires
        name != "CURDIR"@,
        origin is File || origin is Override,
    ensures
        ({
            let have = vars.vars.dom().contains(name);
            let old = vars.vars[name].origin;
            let weak = old is Default || old is Environment || old is File || origin is Override
                && old is Override;
            let r = assigned_named(vars, name, Flavor::Recursive, value, origin, loc, log, k);
            let s = assigned_named(vars, name, Flavor::Simple, value, origin, loc, log, k);
            &&& !have || weak ==> (r matches Ok(p) && p.1 == k && p.0.export_all == vars.export_all
                && p.0.vars == vars.vars.insert(
                name,
                var::VarView { flavor: Flavor::Recursive, origin, raw: value, exported: None },
            ))
            &&& have && !weak ==> r == Ok::<(VarTableView, nat), (StopView, nat)>((vars, k))
            &&& have && old is CommandLine ==> s == Ok::<(VarTableView, nat), (StopView, nat)>(
                (vars, k),
            )
            &&& !have || weak ==> match in_makefile(value, vars, loc, log, k) {
                Ok(q) => s matches Ok(p) && p.1 == q.1 && p.0.vars == vars.vars.insert(
                    name,
                    var::VarView { flavor: Flavor::Simple, origin, raw: q.0, exported: None },
                ),
                Err(e) => s == Err::<(VarTableView, nat), (StopView, nat)>(e),
            }
        }),
{
    var::lemma_strengths();
}

/// `+=` puts the text as it stands behind the value of a recursive variable, with a space
/// between, and defines what is not defined.
pub proof fn lemma_appended(
    vars: VarTableView,
    name: Seq<char>,
    value: Seq<char>,
    origin: Origin,
    loc: LocView,
    log: Seq<AnswerView>,
    k: nat,
)
    requires
        name != "CURDIR"@,
        vars.vars.dom().contains(name) ==> vars.vars[name].flavor is Recursive && var::strength(
            vars.vars[name].origin,
        ) <= var::strength(origin),
    ensures
        assigned_named(vars, name, Flavor::Append, value, origin, loc, log, k) matches Ok(p)
            && p.1 == k && p.0.vars == vars.vars.insert(
            name,
            var::VarView {
                flavor: Flavor::Recursive,
                origin,
                raw: if vars.vars.dom().contains(name) && vars.vars[name].raw.len() > 0 {
                    vars.vars[name].raw + seq![' '] + value
                } else {
                    value
                },
                exported: None,
            },
        ),
{
    reveal_strlit(" ");
    assert(" "@ =~= seq![' ']);
}

/// A makefile does not change the `CURDIR` that the run began with, in whatever way it is
/// assigned; one that the makefile or the command line has set is a variable like others.
pub proof fn lemma_curdir(
    vars: VarTableView,
    flavor: Flavor,
    value: Seq<char>,
    origin: Origin,
    loc: LocView,
    log: Seq<AnswerView>,
    k: nat,
)
    requires
        vars.vars.dom().contains("CURDIR"@),
    ensures
        vars.vars["CURDIR"@].origin is Default || vars.vars["CURDIR"@].origin is Environment ==> {
            &&& assigned_named(vars, "CURDIR"@, flavor, value, origin, loc, log, k) == Ok::<
                (VarTableView, nat),
                (StopView, nat),
            >((vars, k))
            &&& defined(vars, "CURDIR"@, flavor, value, origin, loc, log, k) == Ok::<
                (VarTableView, nat),
                (StopView, nat),
            >((vars, k))
        },
        vars.vars["CURDIR"@].origin is File && flavor is Recursive && origin is File ==> (
        assigned_named(vars, "CURDIR"@, flavor, value, origin, loc, log, k) matches Ok(p)
            && p.0.vars["CURDIR"@].raw == value),
{
    var::lemma_strengths();
}

/// `define` keeps its text as it stands, also with `:=`; with `+=` and `?=` it does what an
/// assignment does.
pub proof fn lemma_defined(
    vars: VarTableView,
    name: Seq<char>,
    flavor: Flavor,
    body: Seq<char>,
    origin: Origin,
    loc: LocView,
    log: Seq<AnswerView>,
    k: nat,
)
    requires
        name != "CURDIR"@,
    ensures
        (flavor is Recursive || flavor is Simple) && (vars.vars.dom().contains(name)
            ==> var::strength(vars.vars[name].origin) <= var::strength(origin)) ==> (defined(
            vars,
            name,
            flavor,
            body,
            origin,
            loc,
            log,
            k,
        ) matches Ok(p) && p.1 == k && p.0.vars == vars.vars.insert(
            name,
            var::VarView { flavor, origin, raw: body, exported: None },
        )),
        (flavor is Recursive || flavor is Simple) && vars.vars.dom().contains(name)
            && var::strength(vars.vars[name].origin) > var::strength(origin) ==> defined(
            vars,
            name,
            flavor,
            body,
            origin,
            loc,
            log,
            k,
        ) == Ok::<(VarTableView, nat), (StopView, nat)>((vars, k)),
        flavor is Append || flavor is Conditional ==> defined(
            vars,
            name,
            flavor,
            body,
            origin,
            loc,
            log,
            k,
        ) == assigned_named(vars, name, flavor, body, origin, loc, log, k),
{
}

} // verus!
