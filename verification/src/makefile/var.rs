//! Variables: how they were set, by whom, and who may set them again.

use vstd::prelude::*;
use crate::names::NameMap;
use crate::order;
use crate::text::{owned, Dup};

verus! {

/// How a variable's value is read.
#[derive(Debug, Clone, Copy, PartialEq, Eq, Structural)]
pub enum Flavor {
    /// `=` — expanded at use time
    Recursive,
    /// `:=` — expanded at definition time (stored already-expanded)
    Simple,
    /// `?=` — only set if undefined
    Conditional,
    /// `+=` — append
    Append,
}

/// Who set a variable, from the weakest to the strongest.
#[derive(Debug, Clone, Copy, PartialEq, Eq, PartialOrd, Ord, Structural)]
pub enum Origin {
    Default,
    Environment,
    File,
    /// `override` in file
    Override,
    CommandLine,
    /// Automatic variables ($@, $<, …)
    Automatic,
}

impl View for Flavor {
    type V = Flavor;

    open spec fn view(&self) -> Flavor {
        *self
    }
}

impl View for Origin {
    type V = Origin;

    open spec fn view(&self) -> Origin {
        *self
    }
}

impl Dup for Flavor {
    fn dup(&self) -> (r: Self) {
        *self
    }
}

impl Dup for Origin {
    fn dup(&self) -> (r: Self) {
        *self
    }
}

/// The strength of an origin.
pub open spec fn strength(o: Origin) -> int {
    match o {
        Origin::Default => 0,
        Origin::Environment => 1,
        Origin::File => 2,
        Origin::Override => 3,
        Origin::CommandLine => 4,
        Origin::Automatic => 5,
    }
}

/// The name of an origin, as `$(origin …)` shows it.
pub open spec fn origin_name(o: Origin) -> Seq<char> {
    match o {
        Origin::Default => "default"@,
        Origin::Environment => "environment"@,
        Origin::File => "file"@,
        Origin::Override => "override"@,
        Origin::CommandLine => "command line"@,
        Origin::Automatic => "automatic"@,
    }
}

impl Origin {
    /// The strength as a number.
    pub fn rank(&self) -> (r: u8)
        ensures
            r == strength(*self),
    {
        match self {
            Origin::Default => 0,
            Origin::Environment => 1,
            Origin::File => 2,
            Origin::Override => 3,
            Origin::CommandLine => 4,
            Origin::Automatic => 5,
        }
    }

    /// The name, as `$(origin …)` shows it.
    pub fn name(&self) -> (r: &'static str)
        ensures
            r@ == origin_name(*self),
    {
        match self {
            Origin::Default => "default",
            Origin::Environment => "environment",
            Origin::File => "file",
            Origin::Override => "override",
            Origin::CommandLine => "command line",
            Origin::Automatic => "automatic",
        }
    }
}

/// A variable.
#[derive(Debug)]
pub struct Var {
    pub flavor: Flavor,
    pub origin: Origin,
    /// Raw (possibly unexpanded) value.
    pub raw: String,
    /// `Some(true)` = explicitly exported, `Some(false)` = explicitly unexported,
    /// `None` = inherits from `.EXPORT_ALL_VARIABLES` / default.
    pub exported: Option<bool>,
}

#[verifier::ext_equal]
pub struct VarView {
    pub flavor: Flavor,
    pub origin: Origin,
    pub raw: Seq<char>,
    pub exported: Option<bool>,
}

impl View for Var {
    type V = VarView;

    open spec fn view(&self) -> VarView {
        VarView {
            flavor: self.flavor,
            origin: self.origin,
            raw: self.raw@,
            exported: self.exported,
        }
    }
}

impl Dup for Var {
    fn dup(&self) -> (r: Self) {
        Var {
            flavor: self.flavor,
            origin: self.origin,
            raw: self.raw.dup(),
            exported: self.exported,
        }
    }
}

impl Clone for Var {
    fn clone(&self) -> (r: Self)
        ensures
            r@ == self@,
    {
        self.dup()
    }
}

/// A variable about whose export nothing has been said.
pub open spec fn plain_var(flavor: Flavor, origin: Origin, raw: Seq<char>) -> VarView {
    VarView { flavor, origin, raw, exported: None }
}

impl Var {
    pub fn new(flavor: Flavor, origin: Origin, raw: &str) -> (r: Self)
        ensures
            r@ == plain_var(flavor, origin, raw@),
    {
        Var { flavor, origin, raw: owned(raw), exported: None }
    }
}

/// The variables.
#[derive(Debug)]
pub struct VarTable {
    vars: NameMap<Var>,
    /// Set by `.EXPORT_ALL_VARIABLES`
    pub export_all: bool,
}

#[verifier::ext_equal]
pub struct VarTableView {
    pub vars: Map<Seq<char>, VarView>,
    pub export_all: bool,
}

impl View for VarTable {
    type V = VarTableView;

    closed spec fn view(&self) -> VarTableView {
        VarTableView { vars: self.vars@, export_all: self.export_all }
    }
}

impl Dup for VarTable {
    fn dup(&self) -> (r: Self) {
        VarTable { vars: self.vars.dup(), export_all: self.export_all }
    }
}

impl VarTableView {
    pub open spec fn has(self, name: Seq<char>) -> bool {
        self.vars.dom().contains(name)
    }

    /// The variable of a name, if there is one.
    pub open spec fn at(self, name: Seq<char>) -> Option<VarView> {
        if self.has(name) {
            Some(self.vars[name])
        } else {
            None
        }
    }

    /// Whether an assignment of origin `o` to `name` counts: only where no
    /// stronger one has been made.
    pub open spec fn may_set(self, name: Seq<char>, o: Origin) -> bool {
        self.has(name) ==> strength(self.vars[name].origin) <= strength(o)
    }

    pub open spec fn put(self, name: Seq<char>, var: VarView) -> VarTableView {
        VarTableView { vars: self.vars.insert(name, var), ..self }
    }

    /// The table after an assignment.
    pub open spec fn set(self, name: Seq<char>, var: VarView) -> VarTableView {
        if self.may_set(name, var.origin) {
            self.put(name, var)
        } else {
            self
        }
    }

    /// The table after an assignment that only the command line withstands.
    pub open spec fn replace(self, name: Seq<char>, var: VarView) -> VarTableView {
        if self.has(name) && self.vars[name].origin == Origin::CommandLine {
            self
        } else {
            self.put(name, var)
        }
    }

    /// The table after `name` was undefined by `o`.
    pub open spec fn undefine(self, name: Seq<char>, o: Origin) -> VarTableView {
        if self.has(name) && self.may_set(name, o) {
            VarTableView { vars: self.vars.remove(name), ..self }
        } else {
            self
        }
    }

    pub open spec fn raw(self, name: Seq<char>) -> Seq<char> {
        if self.has(name) {
            self.vars[name].raw
        } else {
            seq![]
        }
    }

    pub open spec fn flavor_text(self, name: Seq<char>) -> Seq<char> {
        if !self.has(name) {
            "undefined"@
        } else if self.vars[name].flavor == Flavor::Simple {
            "simple"@
        } else {
            "recursive"@
        }
    }

    pub open spec fn origin_text(self, name: Seq<char>) -> Seq<char> {
        if self.has(name) {
            origin_name(self.vars[name].origin)
        } else {
            "undefined"@
        }
    }

    pub open spec fn set_exported(self, name: Seq<char>, exported: Option<bool>) -> VarTableView {
        if self.has(name) {
            self.put(name, VarView { exported, ..self.vars[name] })
        } else {
            self
        }
    }

    /// Whether a variable goes into the environment of commands: it was exported
    /// by name, or all are exported and it neither was unexported by name nor is
    /// built in.
    pub open spec fn goes_out(self, name: Seq<char>) -> bool {
        self.has(name) && match self.vars[name].exported {
            Some(b) => b,
            None => self.export_all && self.vars[name].origin != Origin::Default,
        }
    }

    /// What goes into the environment of commands.
    pub open spec fn exports(self) -> Map<Seq<char>, Seq<char>> {
        Map::new(|name: Seq<char>| self.goes_out(name), |name: Seq<char>| self.vars[name].raw)
    }
}

/// No variables.
pub open spec fn no_vars() -> VarTableView {
    VarTableView { vars: Map::empty(), export_all: false }
}

impl Default for VarTable {
    fn default() -> (r: Self)
        ensures
            r@ == no_vars(),
    {
        Self::new()
    }
}

impl VarTable {
    /// Shows that there are only so many variables. It does nothing when it runs.
    pub(crate) fn limited(&self)
        ensures
            self@.vars.dom().finite(),
    {
        self.vars.listing();
    }

    pub fn new() -> (r: Self)
        ensures
            r@ == no_vars(),
    {
        VarTable { vars: NameMap::new(), export_all: false }
    }

    /// Look up a variable by name.
    pub fn get(&self, name: &str) -> (r: Option<&Var>)
        ensures
            match r {
                Some(v) => self@.at(name@) == Some(v@),
                None => self@.at(name@) is None,
            },
    {
        self.vars.get(name)
    }

    /// Set a variable, respecting precedence.
    ///
    /// Lower-origin assignments cannot overwrite higher-origin ones.
    pub fn set(&mut self, name: &str, var: Var)
        ensures
            final(self)@ == old(self)@.set(name@, var@),
    {
        if let Some(existing) = self.vars.get(name) {
            if existing.origin.rank() > var.origin.rank() {
                return ;
            }
        }
        self.vars.insert(owned(name), var);
    }

    /// Set a variable, whatever was there before, unless the command line set it.
    pub fn replace(&mut self, name: &str, var: Var)
        ensures
            final(self)@ == old(self)@.replace(name@, var@),
    {
        if let Some(existing) = self.vars.get(name) {
            if existing.origin == Origin::CommandLine {
                return ;
            }
        }
        self.vars.insert(owned(name), var);
    }

    /// Undefine a variable (respects origin precedence).
    pub fn undefine(&mut self, name: &str, origin: Origin)
        ensures
            final(self)@ == old(self)@.undefine(name@, origin),
    {
        if let Some(existing) = self.vars.get(name) {
            if existing.origin.rank() <= origin.rank() {
                self.vars.remove(name);
            }
        }
    }

    /// Raw value, or empty string if undefined.
    pub fn raw(&self, name: &str) -> (r: &str)
        ensures
            r@ == self@.raw(name@),
    {
        match self.vars.get(name) {
            Some(v) => v.raw.as_str(),
            None => {
                proof {
                    reveal_strlit("");
                    assert(""@ =~= seq![]);
                }
                ""
            },
        }
    }

    /// Flavor for `$(flavor NAME)`.
    pub fn flavor_str(&self, name: &str) -> (r: &'static str)
        ensures
            r@ == self@.flavor_text(name@),
    {
        match self.vars.get(name) {
            None => "undefined",
            Some(v) => match v.flavor {
                Flavor::Simple => "simple",
                _ => "recursive",
            },
        }
    }

    /// Origin string for `$(origin NAME)`.
    pub fn origin_str(&self, name: &str) -> (r: String)
        ensures
            r@ == self@.origin_text(name@),
    {
        match self.vars.get(name) {
            None => owned("undefined"),
            Some(v) => owned(v.origin.name()),
        }
    }

    /// Set the export flag on a variable by name.
    pub fn set_exported(&mut self, name: &str, exported: Option<bool>)
        ensures
            final(self)@ == old(self)@.set_exported(name@, exported),
    {
        let changed: Option<Var> = match self.vars.get(name) {
            Some(v) => {
                let mut w = v.dup();
                w.exported = exported;
                Some(w)
            },
            None => None,
        };
        if let Some(w) = changed {
            self.vars.insert(owned(name), w);
        }
    }

    /// Has all variables exported that are not built in.
    pub fn export_everything(&mut self)
        ensures
            final(self)@ == (VarTableView { export_all: true, ..old(self)@ }),
    {
        self.export_all = true;
    }

    /// All variables, in the order of their names (for -p).
    pub fn iter(&self) -> (r: Vec<(&str, &Var)>)
        ensures
            order::increasing(r@.map_values(|p: (&str, &Var)| p.0@)),
            forall|i: int|
                0 <= i < r@.len() ==> self@.at((#[trigger] r@[i]).0@) == Some(r@[i].1@),
            forall|name: Seq<char>| #[trigger]
                self@.has(name) ==> exists|i: int| 0 <= i < r@.len() && (#[trigger] r@[i]).0@
                    == name,
    {
        let mut out: Vec<(&str, &Var)> = Vec::new();
        self.vars.listing();
        let ghost names = self.vars.names();
        let n = self.vars.len();
        let mut i: usize = 0;
        while i < n
            invariant
                i <= n,
                n == names.len(),
                names == self.vars.names(),
                forall|k: int|
                    0 <= k < names.len() ==> self.vars@.dom().contains(#[trigger] names[k])
                        && self.vars@[names[k]] == self.vars.nth(k),
                out@.len() == i,
                forall|k: int|
                    0 <= k < i ==> (#[trigger] out@[k]).0@ == names[k] && out@[k].1@
                        == self.vars.nth(k),
            decreases n - i,
        {
            out.push((self.vars.name_at(i), self.vars.value_at(i)));
            i = i + 1;
        }
        proof {
            assert(out@.map_values(|p: (&str, &Var)| p.0@) =~= names);
            assert forall|k: int| 0 <= k < out@.len() implies self@.at((#[trigger] out@[k]).0@)
                == Some(out@[k].1@) by {
                assert(self.vars@.dom().contains(names[k]));
            }
            assert forall|name: Seq<char>| #[trigger] self@.has(name) implies exists|k: int|
                0 <= k < out@.len() && (#[trigger] out@[k]).0@ == name by {
                assert(names.contains(name));
                let k = choose|k: int| 0 <= k < names.len() && names[k] == name;
                assert(out@[k].0@ == name);
            }
        }
        out
    }

    /// Collect environment-exported variables into a map.
    pub fn env_exports(&self) -> (r: NameMap<String>)
        ensures
            r@ == self@.exports(),
    {
        let mut out: NameMap<String> = NameMap::new();
        self.vars.listing();
        let ghost names = self.vars.names();
        let n = self.vars.len();
        let mut i: usize = 0;
        while i < n
            invariant
                i <= n,
                n == names.len(),
                names == self.vars.names(),
                order::increasing(names),
                forall|k: int|
                    0 <= k < names.len() ==> self.vars@.dom().contains(#[trigger] names[k])
                        && self.vars@[names[k]] == self.vars.nth(k),
                out@ == Map::new(
                    |name: Seq<char>| self@.goes_out(name) && names.take(i as int).contains(name),
                    |name: Seq<char>| self@.vars[name].raw,
                ),
            decreases n - i,
        {
            let name = self.vars.name_at(i);
            let var = self.vars.value_at(i);
            let export = match var.exported {
                Some(b) => b,
                None => self.export_all && var.origin != Origin::Default,
            };
            let ghost before = out@;
            if export {
                out.insert(owned(name), var.raw.dup());
            }
            proof {
                assert(self.vars@.dom().contains(names[i as int]));
                assert(self@.goes_out(name@) == export);
                let upto = names.take(i + 1);
                assert forall|x: Seq<char>| upto.contains(x) == (names.take(i as int).contains(x)
                    || x == name@) by {
                    assert(upto =~= names.take(i as int).push(name@));
                    if names.take(i as int).contains(x) {
                        let k = choose|k: int|
                            0 <= k < names.take(i as int).len() && names.take(i as int)[k] == x;
                        assert(upto[k] == x);
                    }
                    if x == name@ {
                        assert(upto[i as int] == x);
                    }
                }
                assert(out@ =~= Map::new(
                    |x: Seq<char>| self@.goes_out(x) && upto.contains(x),
                    |x: Seq<char>| self@.vars[x].raw,
                ));
            }
            i = i + 1;
        }
        proof {
            assert(names.take(i as int) =~= names);
            assert(out@ =~= self@.exports());
        }
        out
    }
}

// ── What holds of all tables ────────────────────────────────────────────────

/// An assignment never takes a variable from someone stronger.
pub proof fn lemma_set_keeps_stronger(t: VarTableView, name: Seq<char>, var: VarView)
    requires
        t.has(name),
        strength(t.vars[name].origin) > strength(var.origin),
    ensures
        t.set(name, var) == t,
        t.undefine(name, var.origin) == t,
{
}

/// An assignment that counts is what is read afterwards.
pub proof fn lemma_set_then_get(t: VarTableView, name: Seq<char>, var: VarView)
    requires
        t.may_set(name, var.origin),
    ensures
        t.set(name, var).at(name) == Some(var),
        t.set(name, var).raw(name) == var.raw,
{
}

/// Setting, undefining or exporting one variable leaves every other as it was.
pub proof fn lemma_others_stay(
    t: VarTableView,
    name: Seq<char>,
    var: VarView,
    exported: Option<bool>,
    other: Seq<char>,
)
    requires
        other != name,
    ensures
        t.set(name, var).at(other) == t.at(other),
        t.replace(name, var).at(other) == t.at(other),
        t.undefine(name, var.origin).at(other) == t.at(other),
        t.set_exported(name, exported).at(other) == t.at(other),
{
}

/// The strongest of two assignments stands, whichever came first; of two of the
/// same origin the later one stands.
pub proof fn lemma_strongest_stands(name: Seq<char>, a: VarView, b: VarView)
    ensures
        no_vars().set(name, a).set(name, b).at(name) == Some(
            if strength(a.origin) > strength(b.origin) {
                a
            } else {
                b
            },
        ),
{
}

/// After an undefine by an origin at least as strong, the name reads as if it
/// had never been set.
pub proof fn lemma_undefined(t: VarTableView, name: Seq<char>, o: Origin)
    requires
        t.may_set(name, o),
    ensures
        t.undefine(name, o).at(name) is None,
        t.undefine(name, o).raw(name) == Seq::<char>::empty(),
        t.undefine(name, o).flavor_text(name) == "undefined"@,
        t.undefine(name, o).origin_text(name) == "undefined"@,
        t.undefine(name, o).exports() == t.exports().remove(name),
{
    let u = t.undefine(name, o);
    assert(u.exports() =~= t.exports().remove(name));
}

/// What was exported by name goes into the environment with its value, and what
/// was unexported by name does not, whether or not all variables are exported.
pub proof fn lemma_export_by_name(t: VarTableView, name: Seq<char>)
    requires
        t.has(name),
    ensures
        t.set_exported(name, Some(true)).exports().dom().contains(name),
        t.set_exported(name, Some(true)).exports()[name] == t.raw(name),
        !t.set_exported(name, Some(false)).exports().dom().contains(name),
{
}

/// The command line comes before `override`, that before the makefile, that before the
/// environment, and that before what is built in.
pub proof fn lemma_strengths()
    ensures
        strength(Origin::Default) < strength(Origin::Environment),
        strength(Origin::Environment) < strength(Origin::File),
        strength(Origin::File) < strength(Origin::Override),
        strength(Origin::Override) < strength(Origin::CommandLine),
        strength(Origin::CommandLine) < strength(Origin::Automatic),
{
}

/// Setting a variable counts where there is none, or none that is stronger, and then leaves
/// exactly what was set; otherwise it changes nothing.
pub proof fn lemma_set(t: VarTableView, name: Seq<char>, v: VarView)
    ensures
        ({
            let have = t.vars.dom().contains(name);
            let counts = !have || strength(t.vars[name].origin) <= strength(v.origin);
            &&& counts ==> t.set(name, v).vars == t.vars.insert(name, v)
            &&& !counts ==> t.set(name, v) == t
            &&& t.set(name, v).export_all == t.export_all
            &&& have && counts ==> t.undefine(name, v.origin).vars == t.vars.remove(name)
            &&& !counts ==> t.undefine(name, v.origin) == t
            &&& !have ==> t.undefine(name, v.origin) == t
            &&& t.undefine(name, v.origin).export_all == t.export_all
        }),
{
}

/// Exporting by name changes that and nothing else, and only of what is defined.
pub proof fn lemma_set_exported(t: VarTableView, name: Seq<char>, exported: Option<bool>)
    ensures
        ({
            let u = t.set_exported(name, exported);
            &&& u.vars.dom() == t.vars.dom()
            &&& u.export_all == t.export_all
            &&& t.vars.dom().contains(name) ==> u.vars[name] == (VarView {
                exported,
                ..t.vars[name]
            })
            &&& forall|n: Seq<char>|
                n != name && t.vars.dom().contains(n) ==> #[trigger] u.vars[n] == t.vars[n]
        }),
{
    assert(t.set_exported(name, exported).vars.dom() =~= t.vars.dom());
}

} // verus!
