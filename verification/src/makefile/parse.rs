//! Makefile parser: converts source text into the `Makefile` data structure.
//!
//! The parser is a line-oriented state machine that handles:
//!   - Variable assignments (all flavors, override, target-specific)
//!   - Rule headers (`:` and `::`, order-only `|`, archive members)
//!   - Recipe lines (tab-prefixed)
//!   - Directives: reading other makefiles, define/endef, export/unexport, undefine
//!   - Conditionals: ifeq/ifneq/ifdef/ifndef/else/endif (fully nested)

use vstd::prelude::*;
use crate::args::Args;
use crate::error;
use crate::error::{Error, ErrorView, Loc, LocView};
use crate::paths;
use crate::paths::{absolute, same_path};
use crate::text;
use crate::text::{
    append,
    append_str,
    chars_of,
    dup_all,
    from,
    join_strings,
    owned,
    split_words,
    string_of,
    trimmed,
    upto,
    Dup,
};
use crate::world;
use crate::world::{is_yes, Answer, AnswerView, Query, QueryView, Stop, StopView, Told, Transcript};
use super::assign;
use super::assign::{define, export_names, handle_assignment, handle_export, handle_undefine};
use super::conditions;
use super::conditions::{conditional_of, handle_conditional, skipping};
use super::expand;
use super::expand::expand_chars;
use super::lines;
use super::lines::{contains_assign, ends_define, parse_define_header, strip_directive};
use super::reader;
use super::reader::{LogicalLine, LogicalLineView, Reader};
use super::rule;
use super::rule::RecipeLine;
use super::rules;
use super::rules::{commit_rule, process_special_targets, try_parse_rule, RuleState, RuleStateView};
use super::var;
use super::var::{Flavor, Origin, Var, VarView};
use super::vpath;
use super::vpath::{add_places, first_found};
use super::{Makefile, MakefileView};

pub use super::conditions::CondFrame;

verus! {

/// A `define` block that is being read.
#[derive(Debug)]
pub struct DefineBlock {
    pub name: String,
    pub flavor: Flavor,
    pub origin: Origin,
    pub lines: Vec<String>,
}

pub struct DefineView {
    pub name: Seq<char>,
    pub flavor: Flavor,
    pub origin: Origin,
    pub lines: Seq<Seq<char>>,
}

impl View for DefineBlock {
    type V = DefineView;

    open spec fn view(&self) -> DefineView {
        DefineView {
            name: self.name@,
            flavor: self.flavor,
            origin: self.origin,
            lines: text::views(self.lines@),
        }
    }
}

/// How far the reading of a makefile has come.
pub struct StateView {
    pub mf: MakefileView,
    pub conds: Seq<CondFrame>,
    pub define: Option<DefineView>,
    pub rule: Option<RuleStateView>,
}

struct State {
    mf: Makefile,
    conds: Vec<CondFrame>,
    define: Option<DefineBlock>,
    rule: Option<RuleState>,
}

impl State {
    spec fn seen(self) -> StateView {
        StateView {
            mf: self.mf@,
            conds: self.conds@,
            define: text::view_of(self.define),
            rule: text::view_of(self.rule),
        }
    }
}

// ── What a line does ────────────────────────────────────────────────────────

/// A line inside of a `define`: it is kept, or ends the block, whose lines then
/// become the value of the variable.
pub open spec fn in_define(
    st: StateView,
    def: DefineView,
    line: Seq<char>,
    loc: LocView,
    log: Seq<AnswerView>,
    k: nat,
) -> Told<StateView> {
    if lines::is_endef(line) {
        with_vars(
            StateView { define: None, ..st },
            assign::defined(
                st.mf.vars,
                def.name,
                def.flavor,
                text::join(def.lines, "\n"@),
                def.origin,
                loc,
                log,
                k,
            ),
        )
    } else {
        Ok(
            (
                StateView { define: Some(DefineView { lines: def.lines.push(line), ..def }), ..st },
                k,
            ),
        )
    }
}

/// A line that begins with a tab: it goes to the rule that is open. Without one
/// it is ignored.
pub open spec fn in_recipe(st: StateView, line: Seq<char>) -> StateView {
    if conditions::is_skipping(st.conds) {
        st
    } else {
        match st.rule {
            None => st,
            Some(rs) => StateView {
                rule: Some(
                    RuleStateView {
                        recipe: rs.recipe.push(rule::recipe_line(line.skip(1))),
                        ..rs
                    },
                ),
                ..st
            },
        }
    }
}

/// The state after the rule that is open, if one is, was added to the makefile.
pub open spec fn closed_rule(st: StateView, log: Seq<AnswerView>, k: nat) -> Told<StateView> {
    match st.rule {
        None => Ok((st, k)),
        Some(rs) => {
            let special = rules::after_special(st.mf, rs);
            if special.0 {
                Ok((StateView { mf: special.1, rule: None, ..st }, k))
            } else {
                match rules::committed(special.1, rs, log, k) {
                    Err(s) => Err(s),
                    Ok(p) => Ok((StateView { mf: p.0, rule: None, ..st }, p.1)),
                }
            }
        },
    }
}

/// Whether a line has other makefiles read, and if so what stands behind the
/// word, and whether missing files are passed over.
pub open spec fn reads_others(line: Seq<char>) -> Option<(Seq<char>, bool)> {
    if lines::is_directive(line, "include"@) {
        Some((lines::directive_rest(line, "include"@), false))
    } else if lines::is_directive(line, "-include"@) {
        Some((lines::directive_rest(line, "-include"@), true))
    } else if lines::is_directive(line, "sinclude"@) {
        Some((lines::directive_rest(line, "sinclude"@), true))
    } else {
        None
    }
}

fn other_makefiles(line: &[char]) -> (r: Option<(&[char], bool)>)
    ensures
        match r {
            Some(p) => reads_others(line@) == Some((p.0@, p.1)),
            None => reads_others(line@) is None,
        },
{
    if let Some(rest) = strip_directive(line, "include") {
        Some((rest, false))
    } else if let Some(rest) = strip_directive(line, "-include") {
        Some((rest, true))
    } else if let Some(rest) = strip_directive(line, "sinclude") {
        Some((rest, true))
    } else {
        None
    }
}

/// The path under which a makefile is read that another one names: the name
/// itself where that is absolute or exists, else the first place in the search
/// directories where it exists, else the name.
pub open spec fn located(
    name: Seq<char>,
    dirs: Seq<Seq<char>>,
    log: Seq<AnswerView>,
    k: nat,
) -> Told<Seq<char>> {
    if paths::is_absolute(name) {
        Ok((name, k))
    } else {
        match world::asked(log, k, QueryView::Exists(name)) {
            Err(s) => Err(s),
            Ok(a) => if world::says_yes(a.0) {
                Ok((name, a.1))
            } else {
                match vpath::first_existing(vpath::places(dirs, name), 0, log, a.1) {
                    Err(s) => Err(s),
                    Ok(p) => match p.0 {
                        Some(path) => Ok((path, p.1)),
                        None => Ok((name, p.1)),
                    },
                }
            },
        }
    }
}

fn resolve_include(name: &str, dirs: &[String], t: &mut Transcript) -> (r: Result<String, Stop>)
    ensures
        world::tells(
            r,
            *old(t),
            *final(t),
            located(name@, text::views(dirs@), old(t).log(), old(t).at()),
        ),
{
    broadcast use text::group_views;

    if absolute(chars_of(name).as_slice()) {
        return Ok(owned(name));
    }
    let here = t.ask(Query::Exists(owned(name)))?;
    if is_yes(&here) {
        return Ok(owned(name));
    }
    let mut list: Vec<String> = Vec::new();
    add_places(&mut list, dirs, name);
    assert(text::views(list@) =~= vpath::places(text::views(dirs@), name@));
    match first_found(list.as_slice(), t)?.0 {
        Some(path) => Ok(path),
        None => Ok(owned(name)),
    }
}

/// Whether a makefile is being read already.
pub open spec fn is_open(stack: Seq<Seq<char>>, path: Seq<char>) -> bool {
    exists|i: int|
        0 <= i < stack.len() && paths::path_key(#[trigger] stack[i]) == paths::path_key(path)
}

fn already_open(stack: &[String], path: &str) -> (r: bool)
    ensures
        r == is_open(text::views(stack@), path@),
{
    let mut i: usize = 0;
    while i < stack.len()
        invariant
            i <= stack@.len(),
            forall|j: int|
                0 <= j < i ==> paths::path_key((#[trigger] stack@[j])@) != paths::path_key(path@),
        decreases stack.len() - i,
    {
        if same_path(stack[i].as_str(), path) {
            proof {
                assert(paths::path_key(text::views(stack@)[i as int]) == paths::path_key(path@));
            }
            return true;
        }
        i = i + 1;
    }
    false
}

/// Why a file could not be read.
pub open spec fn reason(a: AnswerView) -> Seq<char> {
    match a {
        AnswerView::Failed(s) => s,
        _ => seq![],
    }
}

/// The warning for a line that means nothing.
pub open spec fn unknown_line(loc: LocView, line: Seq<char>) -> Seq<char> {
    error::loc_text(loc) + ": warning: ignoring unknown line: "@ + line.take(
        if line.len() < 40 {
            line.len() as int
        } else {
            40
        },
    )
}

pub open spec fn failed_at<T>(loc: LocView, msg: Seq<char>, k: nat) -> Told<T> {
    world::failed(ErrorView::FatalAt(loc, msg), k)
}

/// What a line does that opens a `define`.
pub open spec fn opens_define(
    st: StateView,
    rest: Seq<char>,
    loc: LocView,
    log: Seq<AnswerView>,
    k: nat,
) -> Told<StateView> {
    let h = lines::define_header(rest);
    match assign::in_makefile(h.0, st.mf.vars, loc, log, k) {
        Err(s) => Err(s),
        Ok(p) => Ok(
            (
                StateView {
                    define: Some(
                        DefineView {
                            name: text::trim(p.0),
                            flavor: h.1,
                            origin: Origin::File,
                            lines: seq![],
                        },
                    ),
                    ..st
                },
                p.1,
            ),
        ),
    }
}

/// What a line does that can only be a rule header. One that is none gives a
/// warning.
pub open spec fn opens_rule(
    st: StateView,
    line: Seq<char>,
    loc: LocView,
    log: Seq<AnswerView>,
    k: nat,
) -> Told<StateView> {
    match rules::header(line, st.mf.vars, loc, log, k) {
        Err(s) => Err(s),
        Ok(p) => match p.0 {
            None => match world::asked(log, p.1, QueryView::Warn(unknown_line(loc, line))) {
                Err(s) => Err(s),
                Ok(a) => Ok((st, a.1)),
            },
            Some(rs) => Ok((StateView { rule: Some(rs), ..st }, p.1)),
        },
    }
}

/// The state with other variables.
pub open spec fn with_vars(st: StateView, r: Told<super::var::VarTableView>) -> Told<StateView> {
    match r {
        Err(s) => Err(s),
        Ok(p) => Ok((StateView { mf: MakefileView { vars: p.0, ..st.mf }, ..st }, p.1)),
    }
}

/// The makefile once the file at `path` is among those that were read, which
/// `MAKEFILE_LIST` lists.
pub open spec fn noted(mf: MakefileView, path: Seq<char>) -> MakefileView {
    let files = mf.files_read.push(path);
    MakefileView {
        files_read: files,
        vars: mf.vars.replace(
            "MAKEFILE_LIST"@,
            var::plain_var(Flavor::Simple, Origin::Default, text::join(files, " "@)),
        ),
        ..mf
    }
}

/// The state after a makefile was read that another one names. Its conditions are
/// its own. `d` is at least the number of answers that are left; as each makefile
/// takes one, where `d` is 0 there is none for this one.
pub open spec fn read_one_other(
    name: Seq<char>,
    silent: bool,
    loc: LocView,
    st: StateView,
    open: Seq<Seq<char>>,
    d: nat,
    log: Seq<AnswerView>,
    k: nat,
) -> Told<StateView>
    decreases d, 0int, 0int,
{
    match located(name, st.mf.include_dirs, log, k) {
        Err(s) => Err(s),
        Ok(p) => if d == 0 {
            Err((StopView::Ask(QueryView::ReadFile(p.0)), p.1))
        } else {
            match world::asked(log, p.1, QueryView::ReadFile(p.0)) {
                Err(s) => Err(s),
                Ok(a) => match a.0 {
                    AnswerView::Text(src) => if is_open(open, p.0) {
                        failed_at(loc, "circular include of '"@ + p.0 + "'"@, a.1)
                    } else {
                        match source(
                            src,
                            p.0,
                            noted(st.mf, p.0),
                            seq![],
                            open.push(p.0),
                            (d - 1) as nat,
                            log,
                            a.1,
                        ) {
                            Err(s) => Err(s),
                            Ok(q) => Ok((StateView { mf: q.0, ..st }, q.1)),
                        }
                    },
                    _ => if silent {
                        Ok((st, a.1))
                    } else {
                        failed_at(loc, p.0 + ": "@ + reason(a.0), a.1)
                    },
                },
            }
        },
    }
}

/// The state after the makefiles were read that are named from position `j` on.
pub open spec fn read_others(
    names: Seq<Seq<char>>,
    j: int,
    silent: bool,
    loc: LocView,
    st: StateView,
    open: Seq<Seq<char>>,
    d: nat,
    log: Seq<AnswerView>,
    k: nat,
) -> Told<StateView>
    decreases d, 1int, names.len() - j,
{
    if j < 0 || j >= names.len() {
        Ok((st, k))
    } else {
        match read_one_other(names[j], silent, loc, st, open, d, log, k) {
            Err(s) => Err(s),
            Ok(p) => read_others(names, j + 1, silent, loc, p.0, open, d, log, p.1),
        }
    }
}

/// What a line does that is neither skipped nor about conditions.
pub open spec fn directive(
    line: Seq<char>,
    loc: LocView,
    st: StateView,
    open: Seq<Seq<char>>,
    d: nat,
    log: Seq<AnswerView>,
    k: nat,
) -> Told<StateView>
    decreases d, 2int, 0int,
{
    let vars = st.mf.vars;
    if lines::is_directive(line, "export"@) {
        let rest = lines::directive_rest(line, "export"@);
        with_vars(st, assign::after_export(vars, rest, loc, log, k))
    } else if lines::is_directive(line, "unexport"@) {
        let rest = lines::directive_rest(line, "unexport"@);
        with_vars(st, assign::exported_names(vars, rest, false, loc, log, k))
    } else if lines::is_directive(line, "undefine"@) {
        let rest = lines::directive_rest(line, "undefine"@);
        with_vars(st, assign::after_undefine(vars, rest, loc, log, k))
    } else if lines::is_directive(line, "define"@) {
        opens_define(st, lines::directive_rest(line, "define"@), loc, log, k)
    } else if let Some(others) = reads_others(line) {
        match assign::in_makefile(text::trim(others.0), vars, loc, log, k) {
            Err(s) => Err(s),
            Ok(p) => read_others(text::words(p.0), 0, others.1, loc, st, open, d, log, p.1),
        }
    } else if lines::is_directive(line, "override"@) {
        let rest = text::trim(lines::directive_rest(line, "override"@));
        with_vars(st, assign::assigned(vars, rest, Origin::Override, loc, log, k))
    } else if lines::assigns(line, 0, 0) {
        with_vars(st, assign::assigned(vars, line, Origin::File, loc, log, k))
    } else {
        opens_rule(st, line, loc, log, k)
    }
}

/// What a line does outside of `define` blocks and recipes.
pub open spec fn plain_line(
    line: Seq<char>,
    loc: LocView,
    st: StateView,
    open: Seq<Seq<char>>,
    d: nat,
    log: Seq<AnswerView>,
    k: nat,
) -> Told<StateView>
    decreases d, 2int, 1int,
{
    if line.len() == 0 {
        Ok((st, k))
    } else {
        match conditions::conditional(line) {
            Some(c) => match conditions::after_conditional(
                st.conds,
                c.0,
                c.1,
                st.mf.vars,
                loc,
                log,
                k,
            ) {
                Err(s) => Err(s),
                Ok(p) => Ok((StateView { conds: p.0, ..st }, p.1)),
            },
            None => if conditions::is_skipping(st.conds) {
                Ok((st, k))
            } else {
                directive(line, loc, st, open, d, log, k)
            },
        }
    }
}

/// What a line does.
pub open spec fn step(
    l: LogicalLineView,
    file: Seq<char>,
    st: StateView,
    open: Seq<Seq<char>>,
    d: nat,
    log: Seq<AnswerView>,
    k: nat,
) -> Told<StateView>
    decreases d, 2int, 2int,
{
    match st.define {
        Some(def) => in_define(st, def, l.text, LocView { file, line: l.line }, log, k),
        None => if l.text.len() > 0 && l.text[0] == '\t' {
            Ok((in_recipe(st, l.text), k))
        } else {
            match closed_rule(st, log, k) {
                Err(s) => Err(s),
                Ok(p) => plain_line(
                    text::trim(l.text),
                    LocView { file, line: l.line },
                    p.0,
                    open,
                    d,
                    log,
                    p.1,
                ),
            }
        },
    }
}

/// What the lines from position `j` on do.
pub open spec fn run(
    all: Seq<LogicalLineView>,
    j: int,
    file: Seq<char>,
    st: StateView,
    open: Seq<Seq<char>>,
    d: nat,
    log: Seq<AnswerView>,
    k: nat,
) -> Told<StateView>
    decreases d, 3int, all.len() - j,
{
    if j < 0 || j >= all.len() {
        Ok((st, k))
    } else {
        match step(all[j], file, st, open, d, log, k) {
            Err(s) => Err(s),
            Ok(p) => run(all, j + 1, file, p.0, open, d, log, p.1),
        }
    }
}

/// The makefile once all lines have been read: the last rule is added, and no
/// condition may be left open.
pub open spec fn finished(
    st: StateView,
    file: Seq<char>,
    log: Seq<AnswerView>,
    k: nat,
) -> Told<MakefileView> {
    match closed_rule(st, log, k) {
        Err(s) => Err(s),
        Ok(p) => if p.0.conds.len() > 0 {
            failed_at(LocView { file, line: 0 }, "missing endif"@, p.1)
        } else {
            Ok((p.0.mf, p.1))
        },
    }
}

/// The makefile after a source text was read.
pub open spec fn source(
    src: Seq<char>,
    file: Seq<char>,
    mf: MakefileView,
    conds: Seq<CondFrame>,
    open: Seq<Seq<char>>,
    d: nat,
    log: Seq<AnswerView>,
    k: nat,
) -> Told<MakefileView>
    decreases d, 4int, 0int,
{
    let st = StateView { mf, conds, define: None, rule: None };
    match run(reader::logical_lines(src), 0, file, st, open, d, log, k) {
        Err(s) => Err(s),
        Ok(p) => finished(p.0, file, log, p.1),
    }
}

// ── Doing it ────────────────────────────────────────────────────────────────

fn do_define(st: &mut State, line: &[char], loc: &Loc, t: &mut Transcript) -> (r: Result<
    (),
    Stop,
>)
    requires
        old(st).define is Some,
    ensures
        world::moves(
            r,
            *old(t),
            *final(t),
            final(st).seen(),
            in_define(
                old(st).seen(),
                old(st).define->Some_0@,
                line@,
                loc@,
                old(t).log(),
                old(t).at(),
            ),
        ),
{
    broadcast use text::group_views;

    let mut def: Option<DefineBlock> = None;
    std::mem::swap(&mut def, &mut st.define);
    if let Some(mut block) = def {
        if ends_define(line) {
            let body = join_strings(block.lines.as_slice(), "\n");
            return define(
                &mut st.mf.vars,
                block.name.as_str(),
                block.flavor,
                body.as_str(),
                block.origin,
                loc,
                t,
            );
        }
        block.lines.push(string_of(line));
        st.define = Some(block);
    }
    Ok(())
}

fn do_recipe(st: &mut State, line: &[char])
    requires
        line@.len() > 0,
    ensures
        final(st).seen() == in_recipe(old(st).seen(), line@),
{
    broadcast use text::group_views;

    if skipping(st.conds.as_slice()) {
        return ;
    }
    let mut open: Option<RuleState> = None;
    std::mem::swap(&mut open, &mut st.rule);
    if let Some(mut rs) = open {
        rs.recipe.push(RecipeLine::new(string_of(from(line, 1)).as_str()));
        st.rule = Some(rs);
    }
}

fn close_rule(st: &mut State, t: &mut Transcript) -> (r: Result<(), Stop>)
    ensures
        world::moves(
            r,
            *old(t),
            *final(t),
            final(st).seen(),
            closed_rule(old(st).seen(), old(t).log(), old(t).at()),
        ),
{
    let mut open: Option<RuleState> = None;
    std::mem::swap(&mut open, &mut st.rule);
    if let Some(rs) = open {
        if !process_special_targets(&rs, &mut st.mf) {
            commit_rule(&rs, &mut st.mf, t)?;
        }
    }
    Ok(())
}

fn open_define(st: &mut State, rest: &[char], loc: &Loc, t: &mut Transcript) -> (r: Result<
    (),
    Stop,
>)
    ensures
        world::moves(
            r,
            *old(t),
            *final(t),
            final(st).seen(),
            opens_define(old(st).seen(), rest@, loc@, old(t).log(), old(t).at()),
        ),
{
    broadcast use text::group_views;

    let (name_raw, flavor) = parse_define_header(rest);
    let name = expand_chars(name_raw.as_slice(), &st.mf.vars, None, loc, t)?;
    st.define = Some(
        DefineBlock {
            name: string_of(trimmed(name.as_slice())),
            flavor,
            origin: Origin::File,
            lines: Vec::new(),
        },
    );
    Ok(())
}

fn open_rule(st: &mut State, line: &[char], loc: &Loc, t: &mut Transcript) -> (r: Result<(), Stop>)
    ensures
        world::moves(
            r,
            *old(t),
            *final(t),
            final(st).seen(),
            opens_rule(old(st).seen(), line@, loc@, old(t).log(), old(t).at()),
        ),
{
    match try_parse_rule(line, &st.mf.vars, loc, t)?.0 {
        Some(rs) => {
            st.rule = Some(rs);
        },
        None => {
            let mut msg = loc.chars();
            append_str(&mut msg, ": warning: ignoring unknown line: ");
            let n: usize = if line.len() < 40 {
                line.len()
            } else {
                40
            };
            append(&mut msg, upto(line, n));
            let _ = t.ask(Query::Warn(string_of(msg.as_slice())))?;
        },
    }
    Ok(())
}

fn read_all(
    names: &[Vec<char>],
    silent: bool,
    loc: &Loc,
    st: &mut State,
    open: &Vec<String>,
    d: usize,
    t: &mut Transcript,
) -> (r: Result<(), Stop>)
    ensures
        world::moves(
            r,
            *old(t),
            *final(t),
            final(st).seen(),
            read_others(
                text::views(names@),
                0,
                silent,
                loc@,
                old(st).seen(),
                text::views(open@),
                d as nat,
                old(t).log(),
                old(t).at(),
            ),
        ),
    decreases d, 1int,
{
    let ghost all = text::views(names@);
    let ghost stack = text::views(open@);
    let ghost want = read_others(
        all,
        0,
        silent,
        loc@,
        st.seen(),
        stack,
        d as nat,
        t.log(),
        t.at(),
    );
    let mut j: usize = 0;
    while j < names.len()
        invariant
            j <= names@.len(),
            all == text::views(names@),
            stack == text::views(open@),
            t.log() == old(t).log(),
            want == read_others(
                text::views(names@),
                0,
                silent,
                loc@,
                old(st).seen(),
                text::views(open@),
                d as nat,
                old(t).log(),
                old(t).at(),
            ),
            want == read_others(
                all,
                j as int,
                silent,
                loc@,
                st.seen(),
                stack,
                d as nat,
                t.log(),
                t.at(),
            ),
        decreases names.len() - j,
    {
        assert(all[j as int] == names@[j as int]@);
        read_one(names[j].as_slice(), silent, loc, st, open, d, t)?;
        j = j + 1;
    }
    Ok(())
}

/// Notes that the file at `path` was read.
pub(crate) fn note_file(mf: &mut Makefile, path: &str)
    ensures
        final(mf)@ == noted(old(mf)@, path@),
{
    broadcast use text::group_views;

    mf.files_read.push(text::owned(path));
    let list = join_strings(mf.files_read.as_slice(), " ");
    mf.vars.replace("MAKEFILE_LIST", Var::new(Flavor::Simple, Origin::Default, list.as_str()));
}

fn read_one(
    name: &[char],
    silent: bool,
    loc: &Loc,
    st: &mut State,
    open: &Vec<String>,
    d: usize,
    t: &mut Transcript,
) -> (r: Result<(), Stop>)
    ensures
        world::moves(
            r,
            *old(t),
            *final(t),
            final(st).seen(),
            read_one_other(
                name@,
                silent,
                loc@,
                old(st).seen(),
                text::views(open@),
                d as nat,
                old(t).log(),
                old(t).at(),
            ),
        ),
    decreases d, 0int,
{
    broadcast use text::group_views;

    let path = resolve_include(string_of(name).as_str(), st.mf.include_dirs.as_slice(), t)?;
    if d == 0 {
        return Err(Stop::Ask(Query::ReadFile(path)));
    }
    match t.ask(Query::ReadFile(path.dup()))? {
        Answer::Text(src) => {
            if already_open(open.as_slice(), path.as_str()) {
                let mut msg = chars_of("circular include of '");
                append_str(&mut msg, path.as_str());
                append_str(&mut msg, "'");
                return Err(Stop::Failed(Error::FatalAt(loc.dup(), string_of(msg.as_slice()))));
            }
            note_file(&mut st.mf, path.as_str());
            let mut deeper = dup_all(open.as_slice());
            deeper.push(path.dup());
            let conds: Vec<CondFrame> = Vec::new();
            assert(conds@ =~= seq![]);
            parse_source(src.as_str(), path.as_str(), &mut st.mf, conds, &deeper, d - 1, t)
        },
        Answer::Failed(e) => {
            if silent {
                // missing files are passed over
                Ok(())
            } else {
                let mut msg = chars_of(path.as_str());
                append_str(&mut msg, ": ");
                append_str(&mut msg, e.as_str());
                Err(Stop::Failed(Error::FatalAt(loc.dup(), string_of(msg.as_slice()))))
            }
        },
        _ => {
            if silent {
                Ok(())
            } else {
                let mut msg = chars_of(path.as_str());
                append_str(&mut msg, ": ");
                assert(msg@ + Seq::<char>::empty() =~= msg@);
                Err(Stop::Failed(Error::FatalAt(loc.dup(), string_of(msg.as_slice()))))
            }
        },
    }
}

fn do_directive(
    line: &[char],
    loc: &Loc,
    st: &mut State,
    open: &Vec<String>,
    d: usize,
    t: &mut Transcript,
) -> (r: Result<(), Stop>)
    ensures
        world::moves(
            r,
            *old(t),
            *final(t),
            final(st).seen(),
            directive(
                line@,
                loc@,
                old(st).seen(),
                text::views(open@),
                d as nat,
                old(t).log(),
                old(t).at(),
            ),
        ),
    decreases d, 2int,
{
    if let Some(rest) = strip_directive(line, "export") {
        return handle_export(&mut st.mf.vars, rest, loc, t);
    }
    if let Some(rest) = strip_directive(line, "unexport") {
        return export_names(&mut st.mf.vars, rest, false, loc, t);
    }
    if let Some(rest) = strip_directive(line, "undefine") {
        return handle_undefine(&mut st.mf.vars, rest, loc, t);
    }
    if let Some(rest) = strip_directive(line, "define") {
        return open_define(st, rest, loc, t);
    }
    if let Some((rest, silent)) = other_makefiles(line) {
        let list = expand_chars(trimmed(rest), &st.mf.vars, None, loc, t)?;
        let names = split_words(list.as_slice());
        return read_all(names.as_slice(), silent, loc, st, open, d, t);
    }
    if let Some(rest) = strip_directive(line, "override") {
        return handle_assignment(trimmed(rest), Origin::Override, &mut st.mf.vars, loc, t);
    }
    if contains_assign(line) {
        return handle_assignment(line, Origin::File, &mut st.mf.vars, loc, t);
    }
    open_rule(st, line, loc, t)
}

fn do_plain(
    line: &[char],
    loc: &Loc,
    st: &mut State,
    open: &Vec<String>,
    d: usize,
    t: &mut Transcript,
) -> (r: Result<(), Stop>)
    ensures
        world::moves(
            r,
            *old(t),
            *final(t),
            final(st).seen(),
            plain_line(
                line@,
                loc@,
                old(st).seen(),
                text::views(open@),
                d as nat,
                old(t).log(),
                old(t).at(),
            ),
        ),
    decreases d, 3int,
{
    if line.len() == 0 {
        return Ok(());
    }
    // Conditional directives count even while lines are skipped
    if let Some((word, rest)) = conditional_of(line) {
        return handle_conditional(
            &mut st.conds,
            word,
            rest.as_slice(),
            &st.mf.vars,
            loc,
            t,
        );
    }
    if skipping(st.conds.as_slice()) {
        return Ok(());
    }
    do_directive(line, loc, st, open, d, t)
}

fn do_step(
    l: &LogicalLine,
    file: &str,
    st: &mut State,
    open: &Vec<String>,
    d: usize,
    t: &mut Transcript,
) -> (r: Result<(), Stop>)
    ensures
        world::moves(
            r,
            *old(t),
            *final(t),
            final(st).seen(),
            step(
                l@,
                file@,
                old(st).seen(),
                text::views(open@),
                d as nat,
                old(t).log(),
                old(t).at(),
            ),
        ),
    decreases d, 4int,
{
    let line = chars_of(l.text.as_str());
    let loc = Loc::new(file, l.line);
    if st.define.is_some() {
        return do_define(st, line.as_slice(), &loc, t);
    }
    if line.len() > 0 && line[0] == '\t' {
        do_recipe(st, line.as_slice());
        return Ok(());
    }
    // Non-recipe line always commits the current rule
    close_rule(st, t)?;
    do_plain(trimmed(line.as_slice()), &loc, st, open, d, t)
}

fn parse_source(
    src: &str,
    file: &str,
    mf: &mut Makefile,
    conds: Vec<CondFrame>,
    open: &Vec<String>,
    d: usize,
    t: &mut Transcript,
) -> (r: Result<(), Stop>)
    ensures
        world::moves(
            r,
            *old(t),
            *final(t),
            final(mf)@,
            source(
                src@,
                file@,
                old(mf)@,
                conds@,
                text::views(open@),
                d as nat,
                old(t).log(),
                old(t).at(),
            ),
        ),
    decreases d, 5int,
{
    let ghost want = source(
        src@,
        file@,
        mf@,
        conds@,
        text::views(open@),
        d as nat,
        t.log(),
        t.at(),
    );
    let mut st = State { mf: mf.dup(), conds, define: None, rule: None };
    let list = Reader::new(src).collect();
    let ghost all = text::views(list@);
    let ghost start = st.seen();
    let ghost k = t.at();
    let mut j: usize = 0;
    while j < list.len()
        invariant
            j <= list@.len(),
            all == text::views(list@),
            t.log() == old(t).log(),
            want == source(
                src@,
                file@,
                old(mf)@,
                conds@,
                text::views(open@),
                d as nat,
                old(t).log(),
                old(t).at(),
            ),
            want == (match run(all, 0, file@, start, text::views(open@), d as nat, t.log(), k) {
                Err(s) => Err(s),
                Ok(p) => finished(p.0, file@, t.log(), p.1),
            }),
            run(all, 0, file@, start, text::views(open@), d as nat, t.log(), k) == run(
                all,
                j as int,
                file@,
                st.seen(),
                text::views(open@),
                d as nat,
                t.log(),
                t.at(),
            ),
        decreases list.len() - j,
    {
        assert(all[j as int] == list@[j as int]@);
        do_step(&list[j], file, &mut st, open, d, t)?;
        j = j + 1;
    }
    // Commit any trailing rule
    close_rule(&mut st, t)?;
    // Check for unclosed conditionals
    if st.conds.len() > 0 {
        return Err(Stop::Failed(error::fatal_at(Loc::new(file, 0), "missing endif")));
    }
    *mf = st.mf;
    Ok(())
}

/// Reads a source text into a makefile, inside of the conditions in `cond_stack`
/// and the makefiles in `include_stack`. Where it does not finish, everything
/// stays as it was.
pub fn parse_source_pub(
    src: &str,
    file: &str,
    mf: &mut Makefile,
    args: &Args,
    cond_stack: &mut Vec<CondFrame>,
    include_stack: &Vec<String>,
    t: &mut Transcript,
) -> (r: Result<(), Stop>)
    ensures
        final(t).log() == old(t).log(),
        match source(
            src@,
            file@,
            old(mf)@,
            old(cond_stack)@,
            text::views(include_stack@),
            old(t).log().len(),
            old(t).log(),
            old(t).at(),
        ) {
            Ok(p) => r is Ok && final(mf)@ == p.0 && final(cond_stack)@ == Seq::<
                CondFrame,
            >::empty() && final(t).at() == p.1,
            Err(s) => r is Err && r->Err_0@ == s.0 && final(t).at() == s.1 && final(mf)@ == old(
                mf,
            )@ && final(cond_stack)@
                == old(cond_stack)@,
        },
{
    let mut copy = mf.dup();
    let mut conds: Vec<CondFrame> = Vec::new();
    let mut i: usize = 0;
    while i < cond_stack.len()
        invariant
            i <= cond_stack@.len(),
            cond_stack@ == old(cond_stack)@,
            conds@ =~= cond_stack@.take(i as int),
        decreases cond_stack.len() - i,
    {
        conds.push(cond_stack[i]);
        i = i + 1;
    }
    assert(conds@ =~= cond_stack@);
    let d = t.count();
    parse_source(src, file, &mut copy, conds, include_stack, d, t)?;
    *mf = copy;
    *cond_stack = Vec::new();
    Ok(())
}

/// Reads a source text into a makefile. Where it does not finish, the makefile
/// stays as it was.
pub fn parse_str(
    src: &str,
    file: &str,
    mf: &mut Makefile,
    args: &Args,
    t: &mut Transcript,
) -> (r: Result<(), Stop>)
    ensures
        final(t).log() == old(t).log(),
        match source(
            src@,
            file@,
            old(mf)@,
            seq![],
            seq![],
            old(t).log().len(),
            old(t).log(),
            old(t).at(),
        ) {
            Ok(p) => r is Ok && final(mf)@ == p.0 && final(t).at() == p.1,
            Err(s) => r is Err && r->Err_0@ == s.0 && final(t).at() == s.1 && final(mf)@ == old(
                mf,
            )@,
        },
{
    broadcast use text::group_views;

    let mut cond_stack: Vec<CondFrame> = Vec::new();
    let include_stack: Vec<String> = Vec::new();
    parse_source_pub(src, file, mf, args, &mut cond_stack, &include_stack, t)
}

// ── What holds of reading ───────────────────────────────────────────────────

/// While a branch is skipped, lines that are not about conditions do nothing and
/// ask nothing, and neither do recipe lines.
pub proof fn lemma_skipped(
    line: Seq<char>,
    loc: LocView,
    st: StateView,
    open: Seq<Seq<char>>,
    d: nat,
    log: Seq<AnswerView>,
    k: nat,
)
    requires
        conditions::is_skipping(st.conds),
    ensures
        conditions::conditional(line) is None ==> plain_line(line, loc, st, open, d, log, k)
            == Ok::<(StateView, nat), (StopView, nat)>((st, k)),
        in_recipe(st, line) == st,
{
}

/// The texts of the lines from `j` up to `n`.
pub open spec fn texts(all: Seq<LogicalLineView>, j: int, n: int) -> Seq<Seq<char>> {
    all.subrange(j, n).map_values(|l: LogicalLineView| l.text)
}

/// The lines of a `define` up to its `endef` become the value of the variable,
/// with newlines between them, whatever they look like.
pub proof fn lemma_define(
    all: Seq<LogicalLineView>,
    j: int,
    n: int,
    file: Seq<char>,
    st: StateView,
    def: DefineView,
    open: Seq<Seq<char>>,
    d: nat,
    log: Seq<AnswerView>,
    k: nat,
)
    requires
        0 <= j <= n < all.len(),
        st.define == Some(def),
        lines::is_endef(all[n].text),
        forall|i: int| j <= i < n ==> !lines::is_endef((#[trigger] all[i]).text),
    ensures
        run(all, j, file, st, open, d, log, k) == (match assign::defined(
            st.mf.vars,
            def.name,
            def.flavor,
            text::join(def.lines + texts(all, j, n), "\n"@),
            def.origin,
            LocView { file, line: all[n].line },
            log,
            k,
        ) {
            Err(s) => Err(s),
            Ok(p) => run(
                all,
                n + 1,
                file,
                StateView {
                    mf: MakefileView { vars: p.0, ..st.mf },
                    define: None,
                    ..st
                },
                open,
                d,
                log,
                p.1,
            ),
        }),
    decreases n - j,
{
    let loc = LocView { file, line: all[j].line };
    assert(step(all[j], file, st, open, d, log, k) == in_define(
        st,
        def,
        all[j].text,
        loc,
        log,
        k,
    ));
    if j < n {
        let more = DefineView { lines: def.lines.push(all[j].text), ..def };
        let next = StateView { define: Some(more), ..st };
        lemma_define(all, j + 1, n, file, next, more, open, d, log, k);
        assert(more.lines + texts(all, j + 1, n) =~= def.lines + texts(all, j, n));
        assert(run(all, j, file, st, open, d, log, k) == run(
            all,
            j + 1,
            file,
            next,
            open,
            d,
            log,
            k,
        ));
    } else {
        assert(def.lines + texts(all, j, n) =~= def.lines);
    }
}

/// A makefile that cannot be read is passed over where that was asked for, and
/// is an error elsewhere.
pub proof fn lemma_unreadable(
    name: Seq<char>,
    silent: bool,
    loc: LocView,
    st: StateView,
    open: Seq<Seq<char>>,
    d: nat,
    log: Seq<AnswerView>,
    k: nat,
)
    requires
        d > 0,
    ensures
        located(name, st.mf.include_dirs, log, k) matches Ok(p) ==> (world::asked(
            log,
            p.1,
            QueryView::ReadFile(p.0),
        ) matches Ok(a) ==> (!(a.0 is Text) ==> read_one_other(
            name,
            silent,
            loc,
            st,
            open,
            d,
            log,
            k,
        ) == (if silent {
            Ok::<(StateView, nat), (StopView, nat)>((st, a.1))
        } else {
            failed_at(loc, p.0 + ": "@ + reason(a.0), a.1)
        }))),
{
}

/// Makefiles that are read from another one leave the conditions around them as
/// they are.
pub proof fn lemma_conditions_stay(
    names: Seq<Seq<char>>,
    j: int,
    silent: bool,
    loc: LocView,
    st: StateView,
    open: Seq<Seq<char>>,
    d: nat,
    log: Seq<AnswerView>,
    k: nat,
)
    ensures
        read_others(names, j, silent, loc, st, open, d, log, k) matches Ok(p) ==> p.0.conds
            == st.conds && p.0.define == st.define && p.0.rule == st.rule,
    decreases names.len() - j,
{
    if 0 <= j < names.len() {
        if let Ok(p) = read_one_other(names[j], silent, loc, st, open, d, log, k) {
            lemma_conditions_stay(names, j + 1, silent, loc, p.0, open, d, log, p.1);
        }
    }
}

/// No makefile is read from inside of itself.
pub proof fn lemma_circular(
    name: Seq<char>,
    silent: bool,
    loc: LocView,
    st: StateView,
    open: Seq<Seq<char>>,
    d: nat,
    log: Seq<AnswerView>,
    k: nat,
)
    requires
        d > 0,
    ensures
        located(name, st.mf.include_dirs, log, k) matches Ok(p) ==> (is_open(open, p.0) ==> (
        world::asked(log, p.1, QueryView::ReadFile(p.0)) matches Ok(a) ==> (a.0 is Text
            ==> read_one_other(name, silent, loc, st, open, d, log, k) == failed_at::<StateView>(
            loc,
            "circular include of '"@ + p.0 + "'"@,
            a.1,
        )))),
{
}

// ── What lines do ───────────────────────────────────────────────────────────

proof fn lemma_other_word(line: Seq<char>, name: Seq<char>, i: int)
    requires
        0 <= i < name.len(),
        i < line.len(),
        line[i] != name[i],
    ensures
        !lines::is_directive(line, name),
{
    if name.len() <= line.len() {
        assert(line.subrange(0, name.len() as int)[i] == line[i]);
    }
}

/// The word that begins a line says what the line does with the rest.
pub proof fn lemma_directives(
    rest: Seq<char>,
    loc: LocView,
    st: StateView,
    open: Seq<Seq<char>>,
    d: nat,
    log: Seq<AnswerView>,
    k: nat,
)
    ensures
        ({
            let s = seq![' '] + rest;
            let vars = st.mf.vars;
            let t = text::trim_start(rest);
            &&& directive("export"@ + s, loc, st, open, d, log, k) == with_vars(
                st,
                assign::after_export(vars, t, loc, log, k),
            )
            &&& directive("unexport"@ + s, loc, st, open, d, log, k) == with_vars(
                st,
                assign::exported_names(vars, t, false, loc, log, k),
            )
            &&& directive("undefine"@ + s, loc, st, open, d, log, k) == with_vars(
                st,
                assign::after_undefine(vars, t, loc, log, k),
            )
            &&& directive("define"@ + s, loc, st, open, d, log, k) == opens_define(
                st,
                t,
                loc,
                log,
                k,
            )
            &&& directive("override"@ + s, loc, st, open, d, log, k) == with_vars(
                st,
                assign::assigned(vars, text::trim(t), Origin::Override, loc, log, k),
            )
        }),
{
    let s = seq![' '] + rest;
    reveal_strlit("export");
    reveal_strlit("unexport");
    reveal_strlit("undefine");
    reveal_strlit("define");
    reveal_strlit("include");
    reveal_strlit("-include");
    reveal_strlit("sinclude");
    reveal_strlit("override");
    lemma_words_differ("export"@, rest);
    lemma_words_differ("unexport"@, rest);
    lemma_words_differ("undefine"@, rest);
    lemma_words_differ("define"@, rest);
    lemma_words_differ("override"@, rest);
}

proof fn lemma_words_differ(word: Seq<char>, rest: Seq<char>)
    requires
        word == "export"@ || word == "unexport"@ || word == "undefine"@ || word == "define"@ || word == "include"@ || word == "-include"@ || word == "sinclude"@ || word == "override"@,
    ensures
        ({
            let line = word + (seq![' '] + rest);
            &&& lines::is_directive(line, "export"@) == (word == "export"@)
            &&& lines::is_directive(line, "unexport"@) == (word == "unexport"@)
            &&& lines::is_directive(line, "undefine"@) == (word == "undefine"@)
            &&& lines::is_directive(line, "define"@) == (word == "define"@)
            &&& lines::is_directive(line, "include"@) == (word == "include"@)
            &&& lines::is_directive(line, "-include"@) == (word == "-include"@)
            &&& lines::is_directive(line, "sinclude"@) == (word == "sinclude"@)
            &&& lines::is_directive(line, "override"@) == (word == "override"@)
            &&& lines::directive_rest(line, word) == text::trim_start(rest)
        }),
{
    reveal_strlit("export");
    reveal_strlit("unexport");
    reveal_strlit("undefine");
    reveal_strlit("define");
    reveal_strlit("include");
    reveal_strlit("-include");
    reveal_strlit("sinclude");
    reveal_strlit("override");
    assert("export"@.len() == 6);
    assert("unexport"@.len() == 8);
    assert("undefine"@.len() == 8);
    assert("define"@.len() == 6);
    assert("include"@.len() == 7);
    assert("-include"@.len() == 8);
    assert("sinclude"@.len() == 8);
    assert("override"@.len() == 8);
    let line = word + (seq![' '] + rest);
    assert(line =~= word + seq![' '] + rest);
    lines::lemma_directive(line, word, rest);
    assert(line[0] == word[0] && line[2] == word[2]);
    if word != "export"@ {
        if word[0] != "export"@[0] {
            lemma_other_word(line, "export"@, 0);
        } else {
            assert(word[2] != "export"@[2]);
            lemma_other_word(line, "export"@, 2);
        }
    }
    if word != "unexport"@ {
        if word[0] != "unexport"@[0] {
            lemma_other_word(line, "unexport"@, 0);
        } else {
            assert(word[2] != "unexport"@[2]);
            lemma_other_word(line, "unexport"@, 2);
        }
    }
    if word != "undefine"@ {
        if word[0] != "undefine"@[0] {
            lemma_other_word(line, "undefine"@, 0);
        } else {
            assert(word[2] != "undefine"@[2]);
            lemma_other_word(line, "undefine"@, 2);
        }
    }
    if word != "define"@ {
        if word[0] != "define"@[0] {
            lemma_other_word(line, "define"@, 0);
        } else {
            assert(word[2] != "define"@[2]);
            lemma_other_word(line, "define"@, 2);
        }
    }
    if word != "include"@ {
        if word[0] != "include"@[0] {
            lemma_other_word(line, "include"@, 0);
        } else {
            assert(word[2] != "include"@[2]);
            lemma_other_word(line, "include"@, 2);
        }
    }
    if word != "-include"@ {
        if word[0] != "-include"@[0] {
            lemma_other_word(line, "-include"@, 0);
        } else {
            assert(word[2] != "-include"@[2]);
            lemma_other_word(line, "-include"@, 2);
        }
    }
    if word != "sinclude"@ {
        if word[0] != "sinclude"@[0] {
            lemma_other_word(line, "sinclude"@, 0);
        } else {
            assert(word[2] != "sinclude"@[2]);
            lemma_other_word(line, "sinclude"@, 2);
        }
    }
    if word != "override"@ {
        if word[0] != "override"@[0] {
            lemma_other_word(line, "override"@, 0);
        } else {
            assert(word[2] != "override"@[2]);
            lemma_other_word(line, "override"@, 2);
        }
    }
}

/// `include` has makefiles read that have to exist, `-include` and `sinclude` such that need
/// not.
pub proof fn lemma_reads_others(rest: Seq<char>)
    ensures
        reads_others("include"@ + (seq![' '] + rest)) == Some((text::trim_start(rest), false)),
        reads_others("-include"@ + (seq![' '] + rest)) == Some((text::trim_start(rest), true)),
        reads_others("sinclude"@ + (seq![' '] + rest)) == Some((text::trim_start(rest), true)),
{
    lemma_words_differ("include"@, rest);
    lemma_words_differ("-include"@, rest);
    lemma_words_differ("sinclude"@, rest);
    reveal_strlit("export");
    reveal_strlit("unexport");
    reveal_strlit("undefine");
    reveal_strlit("define");
    reveal_strlit("include");
    reveal_strlit("-include");
    reveal_strlit("sinclude");
    reveal_strlit("override");
    assert("include"@.len() == 7);
    assert("-include"@[0] != "sinclude"@[0]);
    assert("-include"@.len() == 8 && "sinclude"@.len() == 8);
}

/// A makefile that another one names is read under its own name where that is absolute or
/// exists; otherwise under the first place in the search directories that exists, in
/// their order, and under its own name where there is none.
pub proof fn lemma_located(
    name: Seq<char>,
    dirs: Seq<Seq<char>>,
    log: Seq<AnswerView>,
    k: nat,
    n: int,
)
    requires
        0 <= n <= dirs.len(),
        name.len() == 0 || name[0] != '/',
        k + 1 + n < log.len() || (n == dirs.len() && k + 1 + n <= log.len()),
        forall|i: int| k <= i < k + 1 + n ==> #[trigger] log[i] != AnswerView::Flag(true),
        n < dirs.len() ==> log[k + 1 + n] == AnswerView::Flag(true),
    ensures
        n < dirs.len() ==> located(name, dirs, log, k) == Ok::<(Seq<char>, nat), (StopView, nat)>(
            (paths::joined(dirs[n], name), (k + 2 + n) as nat),
        ),
        n == dirs.len() ==> located(name, dirs, log, k) == Ok::<(Seq<char>, nat), (StopView, nat)>(
            (name, (k + 1 + n) as nat),
        ),
{
    let list = vpath::places(dirs, name);
    assert(log[k as int] != AnswerView::Flag(true));
    lemma_located_from(list, 0, n, log, k + 1);
}

proof fn lemma_located_from(
    list: Seq<Seq<char>>,
    i: int,
    n: int,
    log: Seq<AnswerView>,
    k: nat,
)
    requires
        0 <= i <= n <= list.len(),
        k + n - i < log.len() || (n == list.len() && k + n - i <= log.len()),
        forall|j: int| k <= j < k + n - i ==> #[trigger] log[j] != AnswerView::Flag(true),
        n < list.len() ==> log[k + n - i] == AnswerView::Flag(true),
    ensures
        vpath::first_existing(list, i, log, k) == Ok::<(Option<Seq<char>>, nat), (StopView, nat)>(
            if n < list.len() {
                (Some(list[n]), (k + n - i + 1) as nat)
            } else {
                (None, (k + n - i) as nat)
            },
        ),
    decreases n - i,
{
    if i < n {
        assert(log[k as int] != AnswerView::Flag(true));
        lemma_located_from(list, i + 1, n, log, k + 1);
    }
}

/// A name that is absolute, or exists, is taken as it is.
pub proof fn lemma_located_here(
    name: Seq<char>,
    dirs: Seq<Seq<char>>,
    log: Seq<AnswerView>,
    k: nat,
)
    ensures
        name.len() > 0 && name[0] == '/' ==> located(name, dirs, log, k) == Ok::<
            (Seq<char>, nat),
            (StopView, nat),
        >((name, k)),
        !(name.len() > 0 && name[0] == '/') && k < log.len() && log[k as int] == AnswerView::Flag(
            true,
        ) ==> located(name, dirs, log, k) == Ok::<(Seq<char>, nat), (StopView, nat)>((name, k + 1)),
        !(name.len() > 0 && name[0] == '/') && k >= log.len() ==> located(name, dirs, log, k)
            == Err::<(Seq<char>, nat), (StopView, nat)>(
            (StopView::Ask(QueryView::Exists(name)), k),
        ),
{
}

/// A line that begins with a tab goes, without the tab, to the end of the recipe of the rule
/// that is open, and nothing else changes.
pub proof fn lemma_recipe_line(st: StateView, rs: RuleStateView, line: Seq<char>)
    requires
        st.rule == Some(rs),
        forall|i: int| 0 <= i < st.conds.len() ==> (#[trigger] st.conds[i]).active,
    ensures
        in_recipe(st, seq!['\t'] + line) == (StateView {
            rule: Some(RuleStateView { recipe: rs.recipe.push(rule::recipe_line(line)), ..rs }),
            ..st
        }),
{
    assert((seq!['\t'] + line).skip(1) =~= line);
}

/// A rule that ends is added to the makefile once, and is not open any more.
pub proof fn lemma_rule_closed(st: StateView, rs: RuleStateView, log: Seq<AnswerView>, k: nat)
    requires
        st.rule == Some(rs),
    ensures
        closed_rule(st, log, k) matches Ok(p) ==> {
            &&& p.0.rule is None
            &&& p.0.conds == st.conds
            &&& p.0.define == st.define
            &&& rules::after_special(st.mf, rs).0 ==> p.0.mf == rules::after_special(st.mf, rs).1
                && p.1 == k
            &&& !rules::after_special(st.mf, rs).0 ==> rules::committed(
                rules::after_special(st.mf, rs).1,
                rs,
                log,
                k,
            ) == Ok::<(MakefileView, nat), (StopView, nat)>((p.0.mf, p.1))
        },
{
}

/// Every line is read, in its turn: the lines of a text do one after the other what each
/// does by itself.
#[verifier::rlimit(60)]
pub proof fn lemma_lines_in_turn(
    all: Seq<LogicalLineView>,
    j: int,
    file: Seq<char>,
    st: StateView,
    open: Seq<Seq<char>>,
    d: nat,
    log: Seq<AnswerView>,
    k: nat,
)
    requires
        0 <= j <= all.len(),
    ensures
        run(all, j, file, st, open, d, log, k) matches Ok(p) ==> exists|
            states: Seq<StateView>,
            at: Seq<nat>,
        | #[trigger]
            reads_each(all, j, file, states, at, open, d, log) && states[0] == st && states.last()
                == p.0 && at[0] == k && at.last() == p.1,
    decreases all.len() - j,
{
    if j < all.len() {
        if let Ok(q) = step(all[j], file, st, open, d, log, k) {
            lemma_lines_in_turn(all, j + 1, file, q.0, open, d, log, q.1);
            if let Ok(p) = run(all, j + 1, file, q.0, open, d, log, q.1) {
                let (more, rest) = choose|states: Seq<StateView>, at: Seq<nat>| #[trigger]
                    reads_each(all, j + 1, file, states, at, open, d, log) && states[0] == q.0
                        && states.last() == p.0 && at[0] == q.1 && at.last() == p.1;
                let states = seq![st] + more;
                let at = seq![k] + rest;
                assert forall|n: int| j <= n < all.len() implies #[trigger] reads_line(
                    all,
                    j,
                    n,
                    file,
                    states,
                    at,
                    open,
                    d,
                    log,
                ) by {
                    if n > j {
                        assert(reads_line(all, j + 1, n, file, more, rest, open, d, log));
                        assert(states[n - j] == more[n - (j + 1)] && states[n - j + 1] == more[n - (j
                            + 1) + 1]);
                        assert(at[n - j] == rest[n - (j + 1)] && at[n - j + 1] == rest[n - (j + 1)
                            + 1]);
                    } else {
                        assert(states[1] == more[0] && at[1] == rest[0]);
                    }
                }
                assert(reads_each(all, j, file, states, at, open, d, log));
                assert(states.last() == more.last() && at.last() == rest.last());
            }
        }
    } else {
        let states = seq![st];
        let at = seq![k];
        assert(reads_each(all, j, file, states, at, open, d, log));
        assert(states.last() == st && at.last() == k);
    }
}

/// Whether some states are those before each of the lines from `j` on, and after the last.
pub open spec fn reads_each(
    all: Seq<LogicalLineView>,
    j: int,
    file: Seq<char>,
    states: Seq<StateView>,
    at: Seq<nat>,
    open: Seq<Seq<char>>,
    d: nat,
    log: Seq<AnswerView>,
) -> bool {
    &&& states.len() == all.len() - j + 1
    &&& at.len() == all.len() - j + 1
    &&& forall|n: int|
        j <= n < all.len() ==> #[trigger] reads_line(all, j, n, file, states, at, open, d, log)
}

/// Whether reading line `n` goes from the state before it to the one behind it.
pub open spec fn reads_line(
    all: Seq<LogicalLineView>,
    j: int,
    n: int,
    file: Seq<char>,
    states: Seq<StateView>,
    at: Seq<nat>,
    open: Seq<Seq<char>>,
    d: nat,
    log: Seq<AnswerView>,
) -> bool {
    step(all[n], file, states[n - j], open, d, log, at[n - j]) == Ok::<
        (StateView, nat),
        (StopView, nat),
    >((states[n - j + 1], at[n - j + 1]))
}

/// A text is read from its first line on with no rule open, and may not end inside of a
/// condition; its last rule is added too.
pub proof fn lemma_text_read(
    src: Seq<char>,
    file: Seq<char>,
    mf: MakefileView,
    open: Seq<Seq<char>>,
    d: nat,
    log: Seq<AnswerView>,
    k: nat,
)
    ensures
        ({
            let st = StateView { mf, conds: seq![], define: None, rule: None };
            match run(reader::logical_lines(src), 0, file, st, open, d, log, k) {
                Err(s) => source(src, file, mf, seq![], open, d, log, k) == Err::<
                    (MakefileView, nat),
                    (StopView, nat),
                >(s),
                Ok(p) => match closed_rule(p.0, log, p.1) {
                    Err(s) => source(src, file, mf, seq![], open, d, log, k) is Err,
                    Ok(q) => source(src, file, mf, seq![], open, d, log, k) == (if q.0.conds.len()
                        == 0 {
                        Ok::<(MakefileView, nat), (StopView, nat)>((q.0.mf, q.1))
                    } else {
                        Err(
                            (
                                StopView::Failed(
                                    ErrorView::FatalAt(LocView { file, line: 0 }, "missing endif"@),
                                ),
                                q.1,
                            ),
                        )
                    }),
                },
            }
        }),
{
}

/// A makefile that can be read, and is not being read, is noted and then read as a text of
/// its own; what is open around it stays as it was.
pub proof fn lemma_other_read(
    name: Seq<char>,
    silent: bool,
    loc: LocView,
    st: StateView,
    open: Seq<Seq<char>>,
    d: nat,
    log: Seq<AnswerView>,
    k: nat,
    path: Seq<char>,
    n: nat,
    src: Seq<char>,
)
    requires
        d > 0,
        located(name, st.mf.include_dirs, log, k) == Ok::<(Seq<char>, nat), (StopView, nat)>(
            (path, n),
        ),
        n < log.len(),
        log[n as int] == AnswerView::Text(src),
        !is_open(open, path),
    ensures
        match source(
            src,
            path,
            noted(st.mf, path),
            seq![],
            open.push(path),
            (d - 1) as nat,
            log,
            n + 1,
        ) {
            Ok(q) => read_one_other(name, silent, loc, st, open, d, log, k) == Ok::<
                (StateView, nat),
                (StopView, nat),
            >((StateView { mf: q.0, ..st }, q.1)),
            Err(s) => read_one_other(name, silent, loc, st, open, d, log, k) == Err::<
                (StateView, nat),
                (StopView, nat),
            >(s),
        },
        noted(st.mf, path).files_read == st.mf.files_read.push(path),
        noted(st.mf, path).graph == st.mf.graph,
{
}

/// `MAKEFILE_LIST` names the makefiles that have been read, in order, unless the command
/// line has set it.
pub proof fn lemma_noted_list(mf: MakefileView, path: Seq<char>)
    requires
        mf.vars.vars.dom().contains("MAKEFILE_LIST"@) ==> !(
        mf.vars.vars["MAKEFILE_LIST"@].origin is CommandLine),
    ensures
        noted(mf, path).vars.vars.dom().contains("MAKEFILE_LIST"@),
        noted(mf, path).vars.vars["MAKEFILE_LIST"@].raw == text::join(
            mf.files_read.push(path),
            seq![' '],
        ),
        noted(mf, path).vars.vars["MAKEFILE_LIST"@].flavor is Simple,
{
    reveal_strlit(" ");
    assert(" "@ =~= seq![' ']);
}

/// What each line of a makefile is: a line of a `define` as long as one is open, then a
/// recipe line where it begins with a tab, and otherwise a line of its own, which ends the
/// rule before it.
pub proof fn lemma_line_kinds(
    l: LogicalLineView,
    file: Seq<char>,
    st: StateView,
    def: DefineView,
    open: Seq<Seq<char>>,
    d: nat,
    log: Seq<AnswerView>,
    k: nat,
)
    ensures
        ({
            let r = step(l, file, st, open, d, log, k);
            let tab = l.text.len() > 0 && l.text[0] == '\t';
            let loc = LocView { file, line: l.line };
            &&& st.define == Some(def) && !lines::is_directive(text::trim(l.text), "endef"@)
                ==> r == Ok::<(StateView, nat), (StopView, nat)>(
                (
                    StateView {
                        define: Some(DefineView { lines: def.lines.push(l.text), ..def }),
                        ..st
                    },
                    k,
                ),
            )
            &&& st.define is None && tab ==> r == Ok::<(StateView, nat), (StopView, nat)>(
                (in_recipe(st, l.text), k),
            )
            &&& st.define is None && !tab && st.rule is None ==> r == plain_line(
                text::trim(l.text),
                loc,
                st,
                open,
                d,
                log,
                k,
            )
            &&& st.define is None && !tab && st.rule is Some ==> match closed_rule(st, log, k) {
                Err(s) => r == Err::<(StateView, nat), (StopView, nat)>(s),
                Ok(p) => r == plain_line(text::trim(l.text), loc, p.0, open, d, log, p.1),
            }
        }),
{
}

/// A recipe line without a rule before it does nothing.
pub proof fn lemma_no_rule(st: StateView, line: Seq<char>)
    requires
        st.rule is None,
    ensures
        in_recipe(st, line) == st,
{
}

/// `define` opens a definition of the name that stands behind it, of the kind that the
/// operator says, without lines yet.
pub proof fn lemma_opens_define(
    st: StateView,
    name: Seq<char>,
    rest: Seq<char>,
    flavor: Flavor,
    loc: LocView,
    log: Seq<AnswerView>,
    k: nat,
)
    requires
        text::is_word(name),
        lines::define_header(rest) == (name, flavor),
        forall|j: int|
            0 <= j < name.len() ==> #[trigger] name[j] != '$',
    ensures
        opens_define(st, rest, loc, log, k) == Ok::<(StateView, nat), (StopView, nat)>(
            (
                StateView {
                    define: Some(
                        DefineView {
                            name,
                            flavor,
                            origin: Origin::File,
                            lines: seq![],
                        },
                    ),
                    ..st
                },
                k,
            ),
        ),
{
    text::lemma_trim_gives(seq![], name, seq![]);
    assert(Seq::<char>::empty() + name + Seq::<char>::empty() =~= name);
    expand::lemma_plain_text(name, seq![], st.mf.vars, None, loc, false, log, k);
}

/// A line that is a rule opens the rule; one that is nothing is warned of, with its first
/// forty characters, and changes nothing.
pub proof fn lemma_opens_rule(
    st: StateView,
    line: Seq<char>,
    loc: LocView,
    log: Seq<AnswerView>,
    k: nat,
)
    ensures
        match rules::header(line, st.mf.vars, loc, log, k) {
            Err(s) => opens_rule(st, line, loc, log, k) == Err::<
                (StateView, nat),
                (StopView, nat),
            >(s),
            Ok(p) => {
                &&& p.0 is Some ==> opens_rule(st, line, loc, log, k) == Ok::<
                    (StateView, nat),
                    (StopView, nat),
                >((StateView { rule: p.0, ..st }, p.1))
                &&& p.0 is None && p.1 < log.len() ==> opens_rule(st, line, loc, log, k) == Ok::<
                    (StateView, nat),
                    (StopView, nat),
                >((st, p.1 + 1))
                &&& p.0 is None && p.1 >= log.len() && line.len() <= 40 ==> opens_rule(
                    st,
                    line,
                    loc,
                    log,
                    k,
                ) == Err::<(StateView, nat), (StopView, nat)>(
                    (
                        StopView::Ask(
                            QueryView::Warn(
                                error::loc_text(loc) + ": warning: ignoring unknown line: "@ + line,
                            ),
                        ),
                        p.1,
                    ),
                )
                &&& p.0 is None && p.1 >= log.len() && line.len() > 40 ==> opens_rule(
                    st,
                    line,
                    loc,
                    log,
                    k,
                ) == Err::<(StateView, nat), (StopView, nat)>(
                    (
                        StopView::Ask(
                            QueryView::Warn(
                                error::loc_text(loc) + ": warning: ignoring unknown line: "@
                                    + line.take(40),
                            ),
                        ),
                        p.1,
                    ),
                )
            },
        },
{
    assert(line.take(line.len() as int) =~= line);
}

/// A makefile is being read where it is the last that was begun or was being read before,
/// under whatever spelling of its path; at first none is.
pub proof fn lemma_open(stack: Seq<Seq<char>>, begun: Seq<char>, path: Seq<char>)
    ensures
        !is_open(seq![], path),
        is_open(stack.push(path), path),
        is_open(stack.push(begun), path) <==> is_open(stack, path) || paths::path_key(begun)
            == paths::path_key(path),
{
    let all = stack.push(begun);
    let n = stack.len() as int;
    assert(all[n] == begun);
    assert(stack.push(path)[n] == path);
    assert forall|i: int| 0 <= i < n implies all[i] == #[trigger] stack[i] by {}
    if is_open(stack, path) {
        let i = choose|i: int|
            0 <= i < stack.len() && paths::path_key(#[trigger] stack[i]) == paths::path_key(path);
        assert(all[i] == stack[i]);
    }
    if is_open(all, path) {
        let i = choose|i: int|
            0 <= i < all.len() && paths::path_key(#[trigger] all[i]) == paths::path_key(path);
        if i < n {
            assert(stack[i] == all[i]);
        }
    }
}

} // verus!
