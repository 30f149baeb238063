//! Where something stands in a makefile, and what can go wrong there.

use vstd::prelude::*;
use crate::number;
use crate::number::{decimal_chars, decimal_i32};
use crate::text::{append, append_str, chars_of, owned, string_of, Dup};

verus! {

/// A line of a makefile.
#[derive(Debug)]
pub struct Loc {
    pub file: String,
    pub line: usize,
}

#[verifier::ext_equal]
pub struct LocView {
    pub file: Seq<char>,
    pub line: nat,
}

impl View for Loc {
    type V = LocView;

    open spec fn view(&self) -> LocView {
        LocView { file: self.file@, line: self.line as nat }
    }
}

impl Dup for Loc {
    fn dup(&self) -> (r: Self) {
        Loc { file: self.file.dup(), line: self.line }
    }
}

impl Clone for Loc {
    fn clone(&self) -> (r: Self)
        ensures
            r@ == self@,
    {
        self.dup()
    }
}

/// `file:line`.
pub open spec fn loc_text(l: LocView) -> Seq<char> {
    l.file + ":"@ + number::decimal(l.line)
}

impl Loc {
    pub fn new(file: &str, line: usize) -> (r: Self)
        ensures
            r@ == (LocView { file: file@, line: line as nat }),
    {
        Loc { file: owned(file), line }
    }

    /// The location as `file:line`.
    pub fn text(&self) -> (r: String)
        ensures
            r@ == loc_text(self@),
    {
        let v = self.chars();
        string_of(v.as_slice())
    }

    /// The characters of `file:line`.
    pub fn chars(&self) -> (r: Vec<char>)
        ensures
            r@ == loc_text(self@),
    {
        let mut v = chars_of(self.file.as_str());
        append_str(&mut v, ":");
        append(&mut v, decimal_chars(self.line).as_slice());
        v
    }
}

/// How deep the program is nested in other runs of itself; it shows in the name
/// under which messages appear.
#[derive(Debug, Clone, Copy, PartialEq, Eq, Structural)]
pub struct Level {
    pub depth: usize,
}

/// Records the nesting depth.
pub fn set_makelevel(level: &mut Level, n: usize)
    ensures
        final(level).depth == n,
{
    level.depth = n;
}

/// The name for messages: `mk`, or `mk[N]` at depth `N`.
pub open spec fn prog_text(depth: nat) -> Seq<char> {
    if depth == 0 {
        "mk"@
    } else {
        "mk["@ + number::decimal(depth) + "]"@
    }
}

/// The program's name for messages.
pub fn prog(level: &Level) -> (r: String)
    ensures
        r@ == prog_text(level.depth as nat),
{
    if level.depth == 0 {
        owned("mk")
    } else {
        let mut v = chars_of("mk[");
        append(&mut v, decimal_chars(level.depth).as_slice());
        append_str(&mut v, "]");
        string_of(v.as_slice())
    }
}

/// Something that went wrong.
#[derive(Debug)]
pub enum Error {
    /// `mk: *** {msg}.  Stop.`
    Fatal(String),
    /// `file:line: *** {msg}.  Stop.`
    FatalAt(Loc, String),
    /// `mk: *** [{loc}: {target}] Error {code}`
    RecipeError { loc: Loc, target: String, code: i32 },
    /// `mk: *** [{loc}: {target}] Interrupt`
    RecipeInterrupt { loc: Loc, target: String },
    /// A warning, after which the work goes on.
    Warning(Loc, String),
}

#[verifier::ext_equal]
pub enum ErrorView {
    Fatal(Seq<char>),
    FatalAt(LocView, Seq<char>),
    RecipeError { loc: LocView, target: Seq<char>, code: int },
    RecipeInterrupt { loc: LocView, target: Seq<char> },
    Warning(LocView, Seq<char>),
}

impl View for Error {
    type V = ErrorView;

    open spec fn view(&self) -> ErrorView {
        match *self {
            Error::Fatal(msg) => ErrorView::Fatal(msg@),
            Error::FatalAt(loc, msg) => ErrorView::FatalAt(loc@, msg@),
            Error::RecipeError { loc, target, code } => ErrorView::RecipeError {
                loc: loc@,
                target: target@,
                code: code as int,
            },
            Error::RecipeInterrupt { loc, target } => ErrorView::RecipeInterrupt {
                loc: loc@,
                target: target@,
            },
            Error::Warning(loc, msg) => ErrorView::Warning(loc@, msg@),
        }
    }
}

impl Dup for Error {
    fn dup(&self) -> (r: Self) {
        match self {
            Error::Fatal(msg) => Error::Fatal(msg.dup()),
            Error::FatalAt(loc, msg) => Error::FatalAt(loc.dup(), msg.dup()),
            Error::RecipeError { loc, target, code } => Error::RecipeError {
                loc: loc.dup(),
                target: target.dup(),
                code: *code,
            },
            Error::RecipeInterrupt { loc, target } => Error::RecipeInterrupt {
                loc: loc.dup(),
                target: target.dup(),
            },
            Error::Warning(loc, msg) => Error::Warning(loc.dup(), msg.dup()),
        }
    }
}

/// The line in which an error is reported.
pub open spec fn error_text(e: ErrorView, depth: nat) -> Seq<char> {
    match e {
        ErrorView::Fatal(msg) => prog_text(depth) + ": *** "@ + msg + ".  Stop."@,
        ErrorView::FatalAt(loc, msg) => loc_text(loc) + ": *** "@ + msg + ".  Stop."@,
        ErrorView::RecipeError { loc, target, code } => prog_text(depth) + ": *** ["@ + loc_text(
            loc,
        ) + ": "@ + target + "] Error "@ + number::decimal_int(code),
        ErrorView::RecipeInterrupt { loc, target } => prog_text(depth) + ": *** ["@ + loc_text(loc)
            + ": "@ + target + "] Interrupt"@,
        ErrorView::Warning(loc, msg) => loc_text(loc) + ": "@ + msg,
    }
}

/// The exit status that an error calls for.
pub open spec fn error_status(e: ErrorView) -> int {
    match e {
        ErrorView::Warning(_, _) => 0,
        ErrorView::RecipeError { code, .. } => code,
        _ => 2,
    }
}

impl Error {
    pub fn is_warning(&self) -> (r: bool)
        ensures
            r == (self@ is Warning),
    {
        match self {
            Error::Warning(_, _) => true,
            _ => false,
        }
    }

    /// Exit code this error should produce: 0 for a warning, the command's own
    /// for a failed recipe, 2 for the others.
    pub fn exit_code(&self) -> (r: i32)
        ensures
            r == error_status(self@),
    {
        match self {
            Error::Warning(_, _) => 0,
            Error::RecipeError { code, .. } => *code,
            _ => 2,
        }
    }

    /// The line in which this error is reported.
    pub fn message(&self, level: &Level) -> (r: String)
        ensures
            r@ == error_text(self@, level.depth as nat),
    {
        let p = prog(level);
        let mut v: Vec<char>;
        match self {
            Error::Fatal(msg) => {
                v = chars_of(p.as_str());
                append_str(&mut v, ": *** ");
                append_str(&mut v, msg.as_str());
                append_str(&mut v, ".  Stop.");
            },
            Error::FatalAt(loc, msg) => {
                v = loc.chars();
                append_str(&mut v, ": *** ");
                append_str(&mut v, msg.as_str());
                append_str(&mut v, ".  Stop.");
            },
            Error::RecipeError { loc, target, code } => {
                v = chars_of(p.as_str());
                append_str(&mut v, ": *** [");
                append(&mut v, loc.chars().as_slice());
                append_str(&mut v, ": ");
                append_str(&mut v, target.as_str());
                append_str(&mut v, "] Error ");
                append(&mut v, decimal_i32(*code).as_slice());
            },
            Error::RecipeInterrupt { loc, target } => {
                v = chars_of(p.as_str());
                append_str(&mut v, ": *** [");
                append(&mut v, loc.chars().as_slice());
                append_str(&mut v, ": ");
                append_str(&mut v, target.as_str());
                append_str(&mut v, "] Interrupt");
            },
            Error::Warning(loc, msg) => {
                v = loc.chars();
                append_str(&mut v, ": ");
                append_str(&mut v, msg.as_str());
            },
        }
        string_of(v.as_slice())
    }
}

pub fn fatal(msg: &str) -> (r: Error)
    ensures
        r@ == ErrorView::Fatal(msg@),
{
    Error::Fatal(owned(msg))
}

pub fn fatal_at(loc: Loc, msg: &str) -> (r: Error)
    ensures
        r@ == ErrorView::FatalAt(loc@, msg@),
{
    Error::FatalAt(loc, owned(msg))
}

pub fn warning(loc: Loc, msg: &str) -> (r: Error)
    ensures
        r@ == ErrorView::Warning(loc@, msg@),
{
    Error::Warning(loc, owned(msg))
}

/// Whether a computation gave the result that is wanted of it.
pub open spec fn gives<T: View>(r: Result<T, Error>, want: Result<T::V, ErrorView>) -> bool {
    match want {
        Ok(v) => r is Ok && r->Ok_0@ == v,
        Err(e) => r is Err && r->Err_0@ == e,
    }
}

/// How errors are reported: fatal ones under the name of the program or with their place,
/// failed recipes with the place, the target and the status, and warnings with their
/// place alone.
pub proof fn lemma_reports(
    loc: LocView,
    msg: Seq<char>,
    target: Seq<char>,
    code: int,
    depth: nat,
)
    ensures
        ({
            let place = loc.file + seq![':'] + number::decimal(loc.line);
            let name = if depth == 0 {
                seq!['m', 'k']
            } else {
                seq!['m', 'k', '['] + number::decimal(depth) + seq![']']
            };
            &&& error_text(ErrorView::Fatal(msg), depth) == name + ": *** "@ + msg + ".  Stop."@
            &&& error_text(ErrorView::FatalAt(loc, msg), depth) == place + ": *** "@ + msg
                + ".  Stop."@
            &&& error_text(ErrorView::RecipeError { loc, target, code }, depth) == name + ": *** ["@
                + place + ": "@ + target + "] Error "@ + number::decimal_int(code)
            &&& error_text(ErrorView::RecipeInterrupt { loc, target }, depth) == name
                + ": *** ["@ + place + ": "@ + target + "] Interrupt"@
            &&& error_text(ErrorView::Warning(loc, msg), depth) == place + ": "@ + msg
            &&& loc_text(loc) == place
            &&& error_status(ErrorView::Fatal(msg)) == 2
            &&& error_status(ErrorView::FatalAt(loc, msg)) == 2
            &&& error_status(ErrorView::RecipeInterrupt { loc, target }) == 2
            &&& error_status(ErrorView::RecipeError { loc, target, code }) == code
            &&& error_status(ErrorView::Warning(loc, msg)) == 0
        }),
{
    reveal_strlit(":");
    reveal_strlit("mk");
    reveal_strlit("mk[");
    reveal_strlit("]");
    assert(":"@ =~= seq![':']);
    assert("mk"@ =~= seq!['m', 'k']);
    assert("mk["@ =~= seq!['m', 'k', '[']);
    assert("]"@ =~= seq![']']);
}

} // verus!
