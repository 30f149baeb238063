//! Makefiles: what is in them and what to do with it.

use vstd::prelude::*;
use crate::error::{Loc, LocView};
use crate::text;
use crate::text::{dup_all, dup_opt, Dup};
use crate::world::{AnswerView, Stop, StopView, Told, Transcript};
use self::expand::expand_value;
use self::graph::{BuildGraph, GraphView};
use self::var::{VarTable, VarTableView};
use self::vpath::{VpathTable, VpathView};

pub mod assign;
pub mod conditions;
pub mod database;
pub mod exec;
pub mod expand;
pub mod functions;
pub mod graph;
pub mod implicit;
pub mod lasting;
pub mod lines;
pub mod load;
pub mod outside;
pub mod parse;
pub mod reader;
pub mod restraint;
pub mod rule;
pub mod rules;
pub mod var;
pub mod vpath;

verus! {

/// The central data structure built up during Makefile parsing.
#[derive(Debug)]
pub struct Makefile {
    pub vars: VarTable,
    pub graph: BuildGraph,
    /// First non-special-target (for default goal selection).
    pub first_target: Option<String>,
    /// Takes the place of `.DEFAULT_GOAL` and of the first target.
    pub default_goal: Option<String>,
    /// All files read, in order (MAKEFILE_LIST).
    pub files_read: Vec<String>,
    /// `.SECONDEXPANSION` was seen.
    pub second_expansion: bool,
    /// `.NOTPARALLEL` was seen.
    pub not_parallel: bool,
    /// `.IGNORE` with no prerequisites (global ignore-errors).
    pub global_ignore: bool,
    /// `.SILENT` with no prerequisites (global silent mode).
    pub global_silent: bool,
    pub include_dirs: Vec<String>,
    pub vpath: VpathTable,
    pub restarts: u32,
}

pub struct MakefileView {
    pub vars: VarTableView,
    pub graph: GraphView,
    pub first_target: Option<Seq<char>>,
    pub default_goal: Option<Seq<char>>,
    pub files_read: Seq<Seq<char>>,
    pub second_expansion: bool,
    pub not_parallel: bool,
    pub global_ignore: bool,
    pub global_silent: bool,
    pub include_dirs: Seq<Seq<char>>,
    pub vpath: VpathView,
    pub restarts: u32,
}

impl View for Makefile {
    type V = MakefileView;

    open spec fn view(&self) -> MakefileView {
        MakefileView {
            vars: self.vars@,
            graph: self.graph@,
            first_target: text::view_of(self.first_target),
            default_goal: text::view_of(self.default_goal),
            files_read: text::views(self.files_read@),
            second_expansion: self.second_expansion,
            not_parallel: self.not_parallel,
            global_ignore: self.global_ignore,
            global_silent: self.global_silent,
            include_dirs: text::views(self.include_dirs@),
            vpath: self.vpath@,
            restarts: self.restarts,
        }
    }
}

impl Dup for Makefile {
    fn dup(&self) -> (r: Self) {
        Makefile {
            vars: self.vars.dup(),
            graph: self.graph.dup(),
            first_target: dup_opt(&self.first_target),
            default_goal: dup_opt(&self.default_goal),
            files_read: dup_all(self.files_read.as_slice()),
            second_expansion: self.second_expansion,
            not_parallel: self.not_parallel,
            global_ignore: self.global_ignore,
            global_silent: self.global_silent,
            include_dirs: dup_all(self.include_dirs.as_slice()),
            vpath: self.vpath.dup(),
            restarts: self.restarts,
        }
    }
}

/// A makefile with nothing in it.
pub open spec fn empty_makefile() -> MakefileView {
    MakefileView {
        vars: var::no_vars(),
        graph: graph::empty_graph(),
        first_target: None,
        default_goal: None,
        files_read: seq![],
        second_expansion: false,
        not_parallel: false,
        global_ignore: false,
        global_silent: false,
        include_dirs: seq![],
        vpath: VpathView { global: seq![], patterns: seq![] },
        restarts: 0,
    }
}

/// The place that errors in the value of `.DEFAULT_GOAL` are reported for.
pub open spec fn goal_place() -> LocView {
    LocView { file: ".DEFAULT_GOAL"@, line: 0 }
}

/// The default goal: what was chosen instead, then the value of
/// `.DEFAULT_GOAL`, then the first target.
pub open spec fn goal(mf: MakefileView, log: Seq<AnswerView>, k: nat) -> Told<Option<Seq<char>>> {
    match mf.default_goal {
        Some(g) => Ok((Some(g), k)),
        None => match expand::value_of(
            ".DEFAULT_GOAL"@,
            mf.vars,
            None,
            goal_place(),
            false,
            log,
            k,
        ) {
            Err(s) => Err(s),
            Ok(p) => if p.0.len() > 0 {
                Ok((Some(p.0), p.1))
            } else {
                Ok((mf.first_target, p.1))
            },
        },
    }
}

/// Where nothing was chosen instead, a value of `.DEFAULT_GOAL` without references
/// is the default goal; where it is not set or empty, the first target is.
pub proof fn lemma_goal(mf: MakefileView, log: Seq<AnswerView>, k: nat)
    requires
        mf.default_goal is None,
        mf.vars.vars.dom().finite(),
        expand::is_plain(mf.vars.raw(".DEFAULT_GOAL"@)),
    ensures
        goal(mf, log, k) == Ok::<(Option<Seq<char>>, nat), (StopView, nat)>(
            (
                if mf.vars.raw(".DEFAULT_GOAL"@).len() > 0 {
                    Some(mf.vars.raw(".DEFAULT_GOAL"@))
                } else {
                    mf.first_target
                },
                k,
            ),
        ),
{
    expand::lemma_value(".DEFAULT_GOAL"@, mf.vars, None, goal_place(), false, log, k);
}

impl Makefile {
    pub fn new() -> (r: Self)
        ensures
            r@ == empty_makefile(),
    {
        broadcast use text::group_views;

        Makefile {
            vars: VarTable::new(),
            graph: BuildGraph::new(),
            first_target: None,
            default_goal: None,
            files_read: Vec::new(),
            second_expansion: false,
            not_parallel: false,
            global_ignore: false,
            global_silent: false,
            include_dirs: Vec::new(),
            vpath: VpathTable::new(),
            restarts: 0,
        }
    }

    /// Select the default goal: .DEFAULT_GOAL variable, then first_target.
    pub fn default_goal(&self, t: &mut Transcript) -> (r: Result<Option<String>, Stop>)
        ensures
            final(t).log() == old(t).log(),
            match goal(self@, old(t).log(), old(t).at()) {
                Ok(p) => r is Ok && text::view_of(r->Ok_0) == p.0 && final(t).at() == p.1,
                Err(s) => r is Err && r->Err_0@ == s.0 && final(t).at() == s.1,
            },
    {
        if self.default_goal.is_some() {
            return Ok(dup_opt(&self.default_goal));
        }
        let loc = Loc::new(".DEFAULT_GOAL", 0);
        let value = expand_value(".DEFAULT_GOAL", &self.vars, None, &loc, t)?;
        if value.len() > 0 {
            return Ok(Some(text::string_of(value.as_slice())));
        }
        Ok(dup_opt(&self.first_target))
    }
}

} // verus!
