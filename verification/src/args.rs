//! The command line.

use vstd::prelude::*;
use crate::error;
use crate::error::{Error, ErrorView};
use crate::number;
use crate::number::parse_usize;
use crate::search;
use crate::search::{begins_with, find_char};
use crate::text;
use crate::text::{
    after_word,
    append,
    append_str,
    chars_of,
    dup_all,
    dup_opt,
    from,
    is_text,
    split_words,
    string_of,
    strings_of,
    trimmed,
    upto,
    Dup,
};

verus! {

/// What the command line asks for.
#[derive(Debug)]
pub struct Args {
    /// -f/--file: makefile paths (in order specified)
    pub makefiles: Vec<String>,
    /// -C/--directory: chdir before anything else
    pub directory: Option<String>,
    /// -I: search dirs for makefiles that others name (in order)
    pub include_dirs: Vec<String>,
    /// Targets to build
    pub targets: Vec<String>,
    /// VAR=value assignments from command line (override file vars)
    pub overrides: Vec<(String, String)>,
    /// -e: environment vars override file vars
    pub env_override: bool,
    /// -i: ignore all recipe errors
    pub ignore_errors: bool,
    /// -k/--keep-going: continue past errors
    pub keep_going: bool,
    /// -n/--dry-run: print recipes, don't run them
    pub dry_run: bool,
    /// -p/--print-data-base: print variable/rule database
    pub print_db: bool,
    /// -q/--question: exit 1 if anything out of date, no output
    pub question: bool,
    /// -r/--no-builtin-rules: suppress built-in implicit rules
    pub no_builtin_rules: bool,
    /// -R/--no-builtin-variables: suppress built-in variable values
    pub no_builtin_vars: bool,
    /// -s/--silent: suppress recipe printing
    pub silent: bool,
    /// -t/--touch: touch targets instead of rebuilding
    pub touch: bool,
    /// -w/--print-directory: print directory change messages
    pub print_directory: bool,
    /// -j N: parallel jobs (0 = nproc)
    pub jobs: usize,
    /// --output-sync: buffer per-recipe output (default true)
    pub output_sync: bool,
}

pub struct ArgsView {
    pub makefiles: Seq<Seq<char>>,
    pub directory: Option<Seq<char>>,
    pub include_dirs: Seq<Seq<char>>,
    pub targets: Seq<Seq<char>>,
    pub overrides: Seq<(Seq<char>, Seq<char>)>,
    pub env_override: bool,
    pub ignore_errors: bool,
    pub keep_going: bool,
    pub dry_run: bool,
    pub print_db: bool,
    pub question: bool,
    pub no_builtin_rules: bool,
    pub no_builtin_vars: bool,
    pub silent: bool,
    pub touch: bool,
    pub print_directory: bool,
    pub jobs: nat,
    pub output_sync: bool,
}

impl View for Args {
    type V = ArgsView;

    open spec fn view(&self) -> ArgsView {
        ArgsView {
            makefiles: text::views(self.makefiles@),
            directory: text::view_of(self.directory),
            include_dirs: text::views(self.include_dirs@),
            targets: text::views(self.targets@),
            overrides: text::views(self.overrides@),
            env_override: self.env_override,
            ignore_errors: self.ignore_errors,
            keep_going: self.keep_going,
            dry_run: self.dry_run,
            print_db: self.print_db,
            question: self.question,
            no_builtin_rules: self.no_builtin_rules,
            no_builtin_vars: self.no_builtin_vars,
            silent: self.silent,
            touch: self.touch,
            print_directory: self.print_directory,
            jobs: self.jobs as nat,
            output_sync: self.output_sync,
        }
    }
}

impl Dup for Args {
    fn dup(&self) -> (r: Self) {
        Args {
            makefiles: dup_all(self.makefiles.as_slice()),
            directory: dup_opt(&self.directory),
            include_dirs: dup_all(self.include_dirs.as_slice()),
            targets: dup_all(self.targets.as_slice()),
            overrides: dup_all(self.overrides.as_slice()),
            env_override: self.env_override,
            ignore_errors: self.ignore_errors,
            keep_going: self.keep_going,
            dry_run: self.dry_run,
            print_db: self.print_db,
            question: self.question,
            no_builtin_rules: self.no_builtin_rules,
            no_builtin_vars: self.no_builtin_vars,
            silent: self.silent,
            touch: self.touch,
            print_directory: self.print_directory,
            jobs: self.jobs,
            output_sync: self.output_sync,
        }
    }
}

impl Clone for Args {
    fn clone(&self) -> (r: Self)
        ensures
            r@ == self@,
    {
        self.dup()
    }
}

/// What an empty command line asks for.
pub open spec fn default_args() -> ArgsView {
    ArgsView {
        makefiles: seq![],
        directory: None,
        include_dirs: seq![],
        targets: seq![],
        overrides: seq![],
        env_override: false,
        ignore_errors: false,
        keep_going: false,
        dry_run: false,
        print_db: false,
        question: false,
        no_builtin_rules: false,
        no_builtin_vars: false,
        silent: false,
        touch: false,
        print_directory: false,
        jobs: 1,
        output_sync: true,
    }
}

impl Default for Args {
    fn default() -> (r: Self)
        ensures
            r@ == default_args(),
    {
        broadcast use text::group_views;

        Args {
            makefiles: Vec::new(),
            directory: None,
            include_dirs: Vec::new(),
            targets: Vec::new(),
            overrides: Vec::new(),
            env_override: false,
            ignore_errors: false,
            keep_going: false,
            dry_run: false,
            print_db: false,
            question: false,
            no_builtin_rules: false,
            no_builtin_vars: false,
            silent: false,
            touch: false,
            print_directory: false,
            jobs: 1,
            output_sync: true,
        }
    }
}

/// What `char::is_alphanumeric` returns.
pub uninterp spec fn char_is_alphanumeric(c: char) -> bool;

/// Whether a character is an ASCII letter or digit.
pub open spec fn is_ascii_alphanumeric(c: char) -> bool {
    'a' <= c <= 'z' || 'A' <= c <= 'Z' || '0' <= c <= '9'
}

/// Calls `char::is_alphanumeric`, which tells whether a character is a letter or
/// a number in Unicode. Among the ASCII characters these are the letters `a` to
/// `z` and `A` to `Z` and the digits.
#[verifier::external_body]
fn alphanumeric(c: char) -> (r: bool)
    ensures
        r == char_is_alphanumeric(c),
        (c as u32) < 128 ==> r == is_ascii_alphanumeric(c),
{
    c.is_alphanumeric()
}

/// Whether a character may stand in the name of a variable on the command line.
pub open spec fn is_name_char(c: char) -> bool {
    char_is_alphanumeric(c) || c == '_' || c == '.'
}

/// Whether a text can name a variable on the command line.
pub open spec fn is_var_name(s: Seq<char>) -> bool {
    s.len() > 0 && forall|i: int| 0 <= i < s.len() ==> is_name_char(#[trigger] s[i])
}

fn is_valid_var_name(s: &[char]) -> (r: bool)
    ensures
        r == is_var_name(s@),
{
    if s.len() == 0 {
        return false;
    }
    let mut i: usize = 0;
    while i < s.len()
        invariant
            i <= s@.len(),
            forall|j: int| 0 <= j < i ==> is_name_char(#[trigger] s@[j]),
        decreases s.len() - i,
    {
        if !(alphanumeric(s[i]) || s[i] == '_' || s[i] == '.') {
            assert(!is_name_char(s@[i as int]));
            return false;
        }
        i = i + 1;
    }
    true
}

/// What an option without a value says.
#[derive(Debug, Clone, Copy, PartialEq, Eq, Structural)]
pub enum Switch {
    Environment,
    IgnoreErrors,
    KeepGoing,
    Stop,
    DryRun,
    PrintDb,
    Question,
    NoRules,
    NoVars,
    Silent,
    Touch,
    PrintDirectory,
    NoPrintDirectory,
    OutputSync,
    NoOutputSync,
}

/// The option without a value that `arg` is, if it is one.
pub open spec fn switch(arg: Seq<char>) -> Option<Switch> {
    if arg == "-e"@ || arg == "--environment-overrides"@ {
        Some(Switch::Environment)
    } else if arg == "-i"@ || arg == "--ignore-errors"@ {
        Some(Switch::IgnoreErrors)
    } else if arg == "-k"@ || arg == "--keep-going"@ {
        Some(Switch::KeepGoing)
    } else if arg == "-S"@ || arg == "--no-keep-going"@ || arg == "--stop"@ {
        Some(Switch::Stop)
    } else if arg == "-n"@ || arg == "--dry-run"@ || arg == "--just-print"@ || arg == "--recon"@ {
        Some(Switch::DryRun)
    } else if arg == "-p"@ || arg == "--print-data-base"@ {
        Some(Switch::PrintDb)
    } else if arg == "-q"@ || arg == "--question"@ {
        Some(Switch::Question)
    } else if arg == "-r"@ || arg == "--no-builtin-rules"@ {
        Some(Switch::NoRules)
    } else if arg == "-R"@ || arg == "--no-builtin-variables"@ {
        Some(Switch::NoVars)
    } else if arg == "-s"@ || arg == "--silent"@ || arg == "--quiet"@ {
        Some(Switch::Silent)
    } else if arg == "-t"@ || arg == "--touch"@ {
        Some(Switch::Touch)
    } else if arg == "-w"@ || arg == "--print-directory"@ {
        Some(Switch::PrintDirectory)
    } else if arg == "--no-print-directory"@ {
        Some(Switch::NoPrintDirectory)
    } else if arg == "--output-sync"@ {
        Some(Switch::OutputSync)
    } else if arg == "--no-output-sync"@ {
        Some(Switch::NoOutputSync)
    } else {
        None
    }
}

fn switch_of(arg: &[char]) -> (r: Option<Switch>)
    ensures
        r == switch(arg@),
{
    if is_text(arg, "-e") || is_text(arg, "--environment-overrides") {
        Some(Switch::Environment)
    } else if is_text(arg, "-i") || is_text(arg, "--ignore-errors") {
        Some(Switch::IgnoreErrors)
    } else if is_text(arg, "-k") || is_text(arg, "--keep-going") {
        Some(Switch::KeepGoing)
    } else if is_text(arg, "-S") || is_text(arg, "--no-keep-going") || is_text(arg, "--stop") {
        Some(Switch::Stop)
    } else if is_text(arg, "-n") || is_text(arg, "--dry-run") || is_text(arg, "--just-print")
        || is_text(arg, "--recon") {
        Some(Switch::DryRun)
    } else if is_text(arg, "-p") || is_text(arg, "--print-data-base") {
        Some(Switch::PrintDb)
    } else if is_text(arg, "-q") || is_text(arg, "--question") {
        Some(Switch::Question)
    } else if is_text(arg, "-r") || is_text(arg, "--no-builtin-rules") {
        Some(Switch::NoRules)
    } else if is_text(arg, "-R") || is_text(arg, "--no-builtin-variables") {
        Some(Switch::NoVars)
    } else if is_text(arg, "-s") || is_text(arg, "--silent") || is_text(arg, "--quiet") {
        Some(Switch::Silent)
    } else if is_text(arg, "-t") || is_text(arg, "--touch") {
        Some(Switch::Touch)
    } else if is_text(arg, "-w") || is_text(arg, "--print-directory") {
        Some(Switch::PrintDirectory)
    } else if is_text(arg, "--no-print-directory") {
        Some(Switch::NoPrintDirectory)
    } else if is_text(arg, "--output-sync") {
        Some(Switch::OutputSync)
    } else if is_text(arg, "--no-output-sync") {
        Some(Switch::NoOutputSync)
    } else {
        None
    }
}

/// What an option without a value changes.
pub open spec fn switched(a: ArgsView, w: Switch) -> ArgsView {
    match w {
        Switch::Environment => ArgsView { env_override: true, ..a },
        Switch::IgnoreErrors => ArgsView { ignore_errors: true, ..a },
        Switch::KeepGoing => ArgsView { keep_going: true, ..a },
        Switch::Stop => ArgsView { keep_going: false, ..a },
        Switch::DryRun => ArgsView { dry_run: true, ..a },
        Switch::PrintDb => ArgsView { print_db: true, ..a },
        Switch::Question => ArgsView { question: true, ..a },
        Switch::NoRules => ArgsView { no_builtin_rules: true, ..a },
        Switch::NoVars => ArgsView { no_builtin_rules: true, no_builtin_vars: true, ..a },
        Switch::Silent => ArgsView { silent: true, ..a },
        Switch::Touch => ArgsView { touch: true, ..a },
        Switch::PrintDirectory => ArgsView { print_directory: true, ..a },
        Switch::NoPrintDirectory => ArgsView { print_directory: false, ..a },
        Switch::OutputSync => ArgsView { output_sync: true, ..a },
        Switch::NoOutputSync => ArgsView { output_sync: false, ..a },
    }
}

fn set_env_override(a: &mut Args, on: bool)
    ensures
        final(a)@ == (ArgsView { env_override: on, ..old(a)@ }),
{
    a.env_override = on;
}

pub(crate) fn set_ignore_errors(a: &mut Args, on: bool)
    ensures
        final(a)@ == (ArgsView { ignore_errors: on, ..old(a)@ }),
{
    a.ignore_errors = on;
}

fn set_keep_going(a: &mut Args, on: bool)
    ensures
        final(a)@ == (ArgsView { keep_going: on, ..old(a)@ }),
{
    a.keep_going = on;
}

fn set_dry_run(a: &mut Args, on: bool)
    ensures
        final(a)@ == (ArgsView { dry_run: on, ..old(a)@ }),
{
    a.dry_run = on;
}

fn set_print_db(a: &mut Args, on: bool)
    ensures
        final(a)@ == (ArgsView { print_db: on, ..old(a)@ }),
{
    a.print_db = on;
}

fn set_question(a: &mut Args, on: bool)
    ensures
        final(a)@ == (ArgsView { question: on, ..old(a)@ }),
{
    a.question = on;
}

pub(crate) fn set_silent(a: &mut Args, on: bool)
    ensures
        final(a)@ == (ArgsView { silent: on, ..old(a)@ }),
{
    a.silent = on;
}

fn set_touch(a: &mut Args, on: bool)
    ensures
        final(a)@ == (ArgsView { touch: on, ..old(a)@ }),
{
    a.touch = on;
}

fn set_print_directory(a: &mut Args, on: bool)
    ensures
        final(a)@ == (ArgsView { print_directory: on, ..old(a)@ }),
{
    a.print_directory = on;
}

fn set_output_sync(a: &mut Args, on: bool)
    ensures
        final(a)@ == (ArgsView { output_sync: on, ..old(a)@ }),
{
    a.output_sync = on;
}

fn set_no_builtins(a: &mut Args, vars: bool)
    ensures
        final(a)@ == (ArgsView {
            no_builtin_rules: true,
            no_builtin_vars: old(a)@.no_builtin_vars || vars,
            ..old(a)@
        }),
{
    a.no_builtin_rules = true;
    a.no_builtin_vars = a.no_builtin_vars || vars;
}

fn apply_switch(a: &mut Args, w: Switch)
    ensures
        final(a)@ == switched(old(a)@, w),
{
    match w {
        Switch::Environment => set_env_override(a, true),
        Switch::IgnoreErrors => set_ignore_errors(a, true),
        Switch::KeepGoing => set_keep_going(a, true),
        Switch::Stop => set_keep_going(a, false),
        Switch::DryRun => set_dry_run(a, true),
        Switch::PrintDb => set_print_db(a, true),
        Switch::Question => set_question(a, true),
        Switch::NoRules => set_no_builtins(a, false),
        Switch::NoVars => set_no_builtins(a, true),
        Switch::Silent => set_silent(a, true),
        Switch::Touch => set_touch(a, true),
        Switch::PrintDirectory => set_print_directory(a, true),
        Switch::NoPrintDirectory => set_print_directory(a, false),
        Switch::OutputSync => set_output_sync(a, true),
        Switch::NoOutputSync => set_output_sync(a, false),
    }
}

fn add_makefile(a: &mut Args, path: String)
    ensures
        final(a)@ == (ArgsView { makefiles: old(a)@.makefiles.push(path@), ..old(a)@ }),
{
    broadcast use text::group_views;

    a.makefiles.push(path);
}

fn set_directory(a: &mut Args, path: String)
    ensures
        final(a)@ == (ArgsView { directory: Some(path@), ..old(a)@ }),
{
    a.directory = Some(path);
}

fn add_include_dir(a: &mut Args, path: String)
    ensures
        final(a)@ == (ArgsView { include_dirs: old(a)@.include_dirs.push(path@), ..old(a)@ }),
{
    broadcast use text::group_views;

    a.include_dirs.push(path);
}

fn set_jobs(a: &mut Args, jobs: usize)
    ensures
        final(a)@ == (ArgsView { jobs: jobs as nat, ..old(a)@ }),
{
    a.jobs = jobs;
}

fn add_target(a: &mut Args, target: String)
    ensures
        final(a)@ == (ArgsView { targets: old(a)@.targets.push(target@), ..old(a)@ }),
{
    broadcast use text::group_views;

    a.targets.push(target);
}

fn add_override(a: &mut Args, name: String, value: String)
    ensures
        final(a)@ == (ArgsView {
            overrides: old(a)@.overrides.push((name@, value@)),
            ..old(a)@
        }),
{
    broadcast use text::group_views;

    a.overrides.push((name, value));
}

/// The letters that may be run together after one `-`.
pub open spec fn short_letters() -> Seq<char> {
    "eikKnpqrRsStw"@
}

/// The error for an option that nobody knows.
pub open spec fn unrecognized(arg: Seq<char>) -> ErrorView {
    ErrorView::Fatal("unrecognized option '"@ + arg + "'"@)
}

fn unrecognized_option(arg: &[char]) -> (r: Error)
    ensures
        r@ == unrecognized(arg@),
{
    let mut v = chars_of("unrecognized option '");
    append(&mut v, arg);
    append_str(&mut v, "'");
    Error::Fatal(string_of(v.as_slice()))
}

/// `a` after the first `n` letters, each read as an option of its own.
pub open spec fn letters(a: ArgsView, flags: Seq<char>, n: int) -> Result<ArgsView, ErrorView>
    decreases n,
{
    if n <= 0 {
        Ok(a)
    } else {
        match letters(a, flags, n - 1) {
            Err(e) => Err(e),
            Ok(b) => {
                let option = "-"@ + seq![flags[n - 1]];
                match switch(option) {
                    Some(w) => Ok(switched(b, w)),
                    None => Err(unrecognized(option)),
                }
            },
        }
    }
}

fn apply_letters(a: &mut Args, flags: &[char]) -> (r: Result<(), Error>)
    ensures
        match letters(old(a)@, flags@, flags@.len() as int) {
            Ok(b) => r is Ok && final(a)@ == b,
            Err(e) => r is Err && r->Err_0@ == e,
        },
{
    let ghost start = a@;
    let mut i: usize = 0;
    while i < flags.len()
        invariant
            i <= flags@.len(),
            letters(start, flags@, i as int) == Ok::<ArgsView, ErrorView>(a@),
            start == old(a)@,
        decreases flags.len() - i,
    {
        let mut option = chars_of("-");
        option.push(flags[i]);
        proof {
            assert(option@ =~= "-"@ + seq![flags@[i as int]]);
        }
        match switch_of(option.as_slice()) {
            Some(w) => {
                apply_switch(a, w);
            },
            None => {
                proof {
                    lemma_letters_stop(start, flags@, i + 1, flags@.len() as int);
                }
                return Err(unrecognized_option(option.as_slice()));
            },
        }
        i = i + 1;
    }
    Ok(())
}

proof fn lemma_letters_stop(a: ArgsView, flags: Seq<char>, m: int, n: int)
    requires
        m <= n,
        letters(a, flags, m) is Err,
    ensures
        letters(a, flags, n) == letters(a, flags, m),
    decreases n - m,
{
    if m < n {
        lemma_letters_stop(a, flags, m, n - 1);
    }
}

/// The value of a one-letter option and where the next argument stands. The
/// value follows the letter, or is the next argument.
pub open spec fn operand(argv: Seq<Seq<char>>, i: int) -> Option<(Seq<char>, int)> {
    let rest = argv[i].skip(2);
    if rest.len() > 0 {
        Some((rest, i + 1))
    } else if i + 1 < argv.len() {
        Some((argv[i + 1], i + 2))
    } else {
        None
    }
}

/// What an option of the form `--name=value` changes, if `arg` is one.
pub open spec fn long_option(a: ArgsView, arg: Seq<char>) -> Option<Result<ArgsView, ErrorView>> {
    if search::begins(arg, "--file="@) {
        let path = arg.skip("--file="@.len() as int);
        Some(Ok(ArgsView { makefiles: a.makefiles.push(path), ..a }))
    } else if search::begins(arg, "--directory="@) {
        let path = arg.skip("--directory="@.len() as int);
        Some(Ok(ArgsView { directory: Some(path), ..a }))
    } else if search::begins(arg, "--jobs="@) {
        match number::parsed(arg.skip("--jobs="@.len() as int)) {
            Some(n) => Some(Ok(ArgsView { jobs: n, ..a })),
            None => Some(Err(ErrorView::Fatal("invalid --jobs argument"@))),
        }
    } else {
        None
    }
}

/// What a one-letter option with a value changes, if the argument at `i` is one,
/// and where the next argument stands.
pub open spec fn valued_option(argv: Seq<Seq<char>>, i: int, a: ArgsView) -> Option<
    Result<(ArgsView, int), ErrorView>,
> {
    let arg = argv[i];
    if search::begins(arg, "-f"@) {
        match operand(argv, i) {
            Some(v) => Some(Ok((ArgsView { makefiles: a.makefiles.push(v.0), ..a }, v.1))),
            None => Some(Err(ErrorView::Fatal("option requires an argument -- 'f'"@))),
        }
    } else if search::begins(arg, "-C"@) {
        match operand(argv, i) {
            Some(v) => Some(Ok((ArgsView { directory: Some(v.0), ..a }, v.1))),
            None => Some(Err(ErrorView::Fatal("option requires an argument -- 'C'"@))),
        }
    } else if search::begins(arg, "-I"@) {
        match operand(argv, i) {
            Some(v) => Some(Ok((ArgsView { include_dirs: a.include_dirs.push(v.0), ..a }, v.1))),
            None => Some(Err(ErrorView::Fatal("option requires an argument -- 'I'"@))),
        }
    } else if search::begins(arg, "-j"@) {
        let rest = arg.skip(2);
        if rest.len() == 0 {
            Some(Ok((ArgsView { jobs: 0, ..a }, i + 1)))
        } else {
            match number::parsed(rest) {
                Some(n) => Some(Ok((ArgsView { jobs: n, ..a }, i + 1))),
                None => Some(Err(ErrorView::Fatal("invalid -j argument '"@ + rest + "'"@))),
            }
        }
    } else {
        None
    }
}

/// What an argument that is no option of the other kinds changes: one `-` with
/// several letters, an assignment or a target.
pub open spec fn other_argument(a: ArgsView, arg: Seq<char>) -> Result<ArgsView, ErrorView> {
    if search::begins(arg, "-"@) {
        let flags = arg.skip(1);
        if flags.len() > 1 && (forall|n: int|
            0 <= n < flags.len() ==> short_letters().contains(#[trigger] flags[n])) {
            letters(a, flags, flags.len() as int)
        } else {
            Err(unrecognized(arg))
        }
    } else {
        match arg.index_of_first('=') {
            Some(e) if is_var_name(arg.take(e)) => Ok(
                ArgsView { overrides: a.overrides.push((arg.take(e), arg.skip(e + 1))), ..a },
            ),
            _ => Ok(ArgsView { targets: a.targets.push(arg), ..a }),
        }
    }
}

/// Reads the argument at position `i`: what it changes and where the next one
/// stands.
pub open spec fn step(argv: Seq<Seq<char>>, i: int, a: ArgsView) -> Result<
    (ArgsView, int),
    ErrorView,
> {
    let arg = argv[i];
    if let Some(r) = long_option(a, arg) {
        match r {
            Ok(b) => Ok((b, i + 1)),
            Err(e) => Err(e),
        }
    } else if let Some(w) = switch(arg) {
        Ok((switched(a, w), i + 1))
    } else if let Some(r) = valued_option(argv, i, a) {
        r
    } else if arg == "--"@ {
        Ok((ArgsView { targets: a.targets + argv.skip(i + 1), ..a }, argv.len() as int))
    } else {
        match other_argument(a, arg) {
            Ok(b) => Ok((b, i + 1)),
            Err(e) => Err(e),
        }
    }
}

/// Reads the arguments from position `i` on.
pub open spec fn parsed_from(argv: Seq<Seq<char>>, i: int, a: ArgsView) -> Result<
    ArgsView,
    ErrorView,
>
    decreases argv.len() - i,
    when 0 <= i <= argv.len()
    via parsed_from_decreases
{
    if i >= argv.len() {
        Ok(a)
    } else {
        match step(argv, i, a) {
            Err(e) => Err(e),
            Ok(p) => parsed_from(argv, p.1, p.0),
        }
    }
}

#[via_fn]
proof fn parsed_from_decreases(argv: Seq<Seq<char>>, i: int, a: ArgsView) {
}

/// The number of jobs, with 0 standing for one per processor.
pub open spec fn with_jobs(a: ArgsView, nproc: nat) -> ArgsView {
    if a.jobs == 0 {
        ArgsView { jobs: nproc, ..a }
    } else {
        a
    }
}

/// What a command line asks for, on a machine with `nproc` processors.
pub open spec fn parsed_args(argv: Seq<Seq<char>>, nproc: nat) -> Result<ArgsView, ErrorView> {
    match parsed_from(argv, 0, default_args()) {
        Ok(a) => Ok(with_jobs(a, nproc)),
        Err(e) => Err(e),
    }
}

fn all_short(flags: &[char]) -> (r: bool)
    ensures
        r == (forall|n: int| 0 <= n < flags@.len() ==> short_letters().contains(#[trigger] flags@[n])),
{
    let set = chars_of("eikKnpqrRsStw");
    let mut i: usize = 0;
    while i < flags.len()
        invariant
            i <= flags@.len(),
            set@ == short_letters(),
            forall|n: int| 0 <= n < i ==> short_letters().contains(#[trigger] flags@[n]),
        decreases flags.len() - i,
    {
        if !search::has_char(set.as_slice(), flags[i]) {
            return false;
        }
        i = i + 1;
    }
    true
}

fn take_operand(argv: &[String], i: usize) -> (r: Option<(String, usize)>)
    requires
        i < argv@.len(),
        argv@[i as int]@.len() >= 2,
    ensures
        match operand(text::views(argv@), i as int) {
            Some(v) => r is Some && r->Some_0.0@ == v.0 && r->Some_0.1 == v.1,
            None => r is None,
        },
{
    let arg = chars_of(argv[i].as_str());
    let rest = from(arg.as_slice(), 2);
    if rest.len() > 0 {
        Some((string_of(rest), i + 1))
    } else if i + 1 < argv.len() {
        Some((argv[i + 1].dup(), i + 2))
    } else {
        None
    }
}

fn parse_long(a: &mut Args, arg: &[char]) -> (r: Option<Result<(), Error>>)
    ensures
        match long_option(old(a)@, arg@) {
            None => r is None && *final(a) == *old(a),
            Some(Ok(b)) => r == Some(Ok::<(), Error>(())) && final(a)@ == b,
            Some(Err(e)) => r matches Some(Err(x)) && x@ == e,
        },
{
    if begins_with(arg, "--file=") {
        let n = chars_of("--file=").len();
        add_makefile(a, string_of(from(arg, n)));
        Some(Ok(()))
    } else if begins_with(arg, "--directory=") {
        let n = chars_of("--directory=").len();
        set_directory(a, string_of(from(arg, n)));
        Some(Ok(()))
    } else if begins_with(arg, "--jobs=") {
        let n = chars_of("--jobs=").len();
        match parse_usize(from(arg, n)) {
            Some(jobs) => {
                set_jobs(a, jobs);
                Some(Ok(()))
            },
            None => Some(Err(error::fatal("invalid --jobs argument"))),
        }
    } else {
        None
    }
}

fn parse_valued(argv: &[String], i: usize, arg: &[char], a: &mut Args) -> (r: Option<
    Result<usize, Error>,
>)
    requires
        i < argv@.len(),
        arg@ == argv@[i as int]@,
    ensures
        match valued_option(text::views(argv@), i as int, old(a)@) {
            None => r is None && *final(a) == *old(a),
            Some(Ok(p)) => r matches Some(Ok(n)) && n == p.1 && final(a)@ == p.0,
            Some(Err(e)) => r matches Some(Err(x)) && x@ == e,
        },
{
    proof {
        reveal_strlit("-f");
        reveal_strlit("-C");
        reveal_strlit("-I");
        reveal_strlit("-j");
    }
    if begins_with(arg, "-f") {
        match take_operand(argv, i) {
            Some(v) => {
                add_makefile(a, v.0);
                Some(Ok(v.1))
            },
            None => Some(Err(error::fatal("option requires an argument -- 'f'"))),
        }
    } else if begins_with(arg, "-C") {
        match take_operand(argv, i) {
            Some(v) => {
                set_directory(a, v.0);
                Some(Ok(v.1))
            },
            None => Some(Err(error::fatal("option requires an argument -- 'C'"))),
        }
    } else if begins_with(arg, "-I") {
        match take_operand(argv, i) {
            Some(v) => {
                add_include_dir(a, v.0);
                Some(Ok(v.1))
            },
            None => Some(Err(error::fatal("option requires an argument -- 'I'"))),
        }
    } else if begins_with(arg, "-j") {
        let n = argv.len();
        let rest = from(arg, 2);
        if rest.len() == 0 {
            // bare -j: cap at nproc
            set_jobs(a, 0);
            return Some(Ok(i + 1));
        }
        match parse_usize(rest) {
            Some(jobs) => {
                set_jobs(a, jobs);
                Some(Ok(i + 1))
            },
            None => {
                let mut v = chars_of("invalid -j argument '");
                append(&mut v, rest);
                append_str(&mut v, "'");
                Some(Err(Error::Fatal(string_of(v.as_slice()))))
            },
        }
    } else {
        None
    }
}

fn parse_other(a: &mut Args, arg: &[char]) -> (r: Result<(), Error>)
    ensures
        match other_argument(old(a)@, arg@) {
            Ok(b) => r is Ok && final(a)@ == b,
            Err(e) => r is Err && r->Err_0@ == e,
        },
{
    proof {
        reveal_strlit("-");
    }
    if begins_with(arg, "-") {
        // Combined short flags like -kn
        let flags = from(arg, 1);
        if flags.len() > 1 && all_short(flags) {
            return apply_letters(a, flags);
        }
        return Err(unrecognized_option(arg));
    }
    if let Some(e) = find_char(arg, '=') {
        let name = upto(arg, e);
        if is_valid_var_name(name) {
            // VAR=value
            add_override(a, string_of(name), string_of(from(arg, e + 1)));
            return Ok(());
        }
    }
    add_target(a, string_of(arg));
    Ok(())
}

/// Everything after position `i` is a target.
fn take_targets(argv: &[String], i: usize, a: &mut Args)
    requires
        i < argv@.len(),
    ensures
        final(a)@ == (ArgsView {
            targets: old(a)@.targets + text::views(argv@).skip(i + 1),
            ..old(a)@
        }),
{
    let ghost views = text::views(argv@);
    let ghost before = a@;
    let n = argv.len();
    let mut j: usize = i + 1;
    proof {
        assert(before.targets + views.subrange(i + 1, i + 1) =~= before.targets);
    }
    while j < n
        invariant
            n == argv@.len(),
            i < j <= argv@.len(),
            views == text::views(argv@),
            a@ == (ArgsView {
                targets: before.targets + views.subrange(i + 1, j as int),
                ..before
            }),
        decreases n - j,
    {
        proof {
            assert(before.targets + views.subrange(i + 1, j + 1) =~= (before.targets
                + views.subrange(i + 1, j as int)).push(views[j as int]));
        }
        add_target(a, argv[j].dup());
        j = j + 1;
    }
    proof {
        assert(views.subrange(i + 1, j as int) =~= views.skip(i + 1));
    }
}

fn parse_step(argv: &[String], i: usize, a: &mut Args) -> (r: Result<usize, Error>)
    requires
        i < argv@.len(),
    ensures
        match step(text::views(argv@), i as int, old(a)@) {
            Ok(p) => r is Ok && r->Ok_0 == p.1 && final(a)@ == p.0,
            Err(e) => r is Err && r->Err_0@ == e,
        },
{
    let arg = chars_of(argv[i].as_str());
    let arg = arg.as_slice();
    let n = argv.len();
    if let Some(r) = parse_long(a, arg) {
        return match r {
            Ok(_) => Ok(i + 1),
            Err(e) => Err(e),
        };
    }
    if let Some(w) = switch_of(arg) {
        apply_switch(a, w);
        return Ok(i + 1);
    }
    if let Some(r) = parse_valued(argv, i, arg, a) {
        return r;
    }
    if is_text(arg, "--") {
        take_targets(argv, i, a);
        return Ok(n);
    }
    match parse_other(a, arg) {
        Ok(_) => Ok(i + 1),
        Err(e) => Err(e),
    }
}

/// Parse argv[1..] on a machine with `nproc` processors.
pub fn parse(argv: &[String], nproc: usize) -> (r: Result<Args, Error>)
    ensures
        error::gives(r, parsed_args(text::views(argv@), nproc as nat)),
{
    let ghost views = text::views(argv@);
    let mut args = Args::default();
    let mut i: usize = 0;
    while i < argv.len()
        invariant
            i <= argv@.len(),
            views == text::views(argv@),
            parsed_from(views, 0, default_args()) == parsed_from(views, i as int, args@),
        decreases argv.len() - i,
    {
        i = parse_step(argv, i, &mut args)?;
    }
    // Resolve jobs=0 to nproc
    if args.jobs == 0 {
        args.jobs = nproc;
    }
    Ok(args)
}

/// The arguments in the value of MAKEFLAGS: a run of letters stands for the
/// option with these letters, unless the value begins with a `-`.
pub open spec fn makeflags_argv(s: Seq<char>) -> Seq<Seq<char>> {
    let t = text::trim(s);
    if t.len() == 0 {
        seq![]
    } else if t[0] == '-' {
        text::words(t)
    } else {
        let n = text::word_end(t, 0);
        seq!["-"@ + t.take(n)] + text::words(text::trim(t.skip(n)))
    }
}

/// Parse the MAKEFLAGS environment variable, which may contain
/// single-letter flags without a leading `-` (e.g. "kn") or
/// full args ("kn --no-builtin-rules").
pub fn parse_makeflags(s: &str, nproc: usize) -> (r: Result<Args, Error>)
    ensures
        error::gives(r, parsed_args(makeflags_argv(s@), nproc as nat)),
{
    broadcast use text::group_views;

    let v = chars_of(s);
    let t = trimmed(v.as_slice());
    if t.len() == 0 {
        return Ok(Args::default());
    }
    if t[0] == '-' {
        let parts = strings_of(split_words(t).as_slice());
        return parse(parts.as_slice(), nproc);
    }
    let n = after_word(t, 0);
    let mut first = chars_of("-");
    append(&mut first, upto(t, n));
    let mut parts: Vec<String> = Vec::new();
    parts.push(string_of(first.as_slice()));
    let ghost head = text::views(parts@);
    let mut more = strings_of(split_words(trimmed(from(t, n))).as_slice());
    let ghost tail = text::views(more@);
    parts.append(&mut more);
    proof {
        assert(head =~= seq!["-"@ + t@.take(n as int)]);
        assert(text::views(parts@) =~= head + tail);
    }
    parse(parts.as_slice(), nproc)
}

// ── What holds of command lines ─────────────────────────────────────────────

/// Whether an argument begins with a `-`.
pub open spec fn is_option(arg: Seq<char>) -> bool {
    arg.len() > 0 && arg[0] == '-'
}

proof fn lemma_switch_is_option(arg: Seq<char>)
    ensures
        switch(arg) is Some ==> is_option(arg),
{
    reveal_strlit("-e");
    reveal_strlit("--environment-overrides");
    reveal_strlit("-i");
    reveal_strlit("--ignore-errors");
    reveal_strlit("-k");
    reveal_strlit("--keep-going");
    reveal_strlit("-S");
    reveal_strlit("--no-keep-going");
    reveal_strlit("--stop");
    reveal_strlit("-n");
    reveal_strlit("--dry-run");
    reveal_strlit("--just-print");
    reveal_strlit("--recon");
    reveal_strlit("-p");
    reveal_strlit("--print-data-base");
    reveal_strlit("-q");
    reveal_strlit("--question");
    reveal_strlit("-r");
    reveal_strlit("--no-builtin-rules");
    reveal_strlit("-R");
    reveal_strlit("--no-builtin-variables");
    reveal_strlit("-s");
    reveal_strlit("--silent");
    reveal_strlit("--quiet");
    reveal_strlit("-t");
    reveal_strlit("--touch");
    reveal_strlit("-w");
    reveal_strlit("--print-directory");
    reveal_strlit("--no-print-directory");
    reveal_strlit("--output-sync");
    reveal_strlit("--no-output-sync");
}

proof fn lemma_begins_option(arg: Seq<char>, p: Seq<char>)
    requires
        search::begins(arg, p),
        is_option(p),
    ensures
        is_option(arg),
{
    assert(arg.subrange(0, p.len() as int)[0] == p[0]);
}

proof fn lemma_target_step(argv: Seq<Seq<char>>, i: int, a: ArgsView)
    requires
        0 <= i < argv.len(),
        !is_option(argv[i]),
        !argv[i].contains('='),
    ensures
        step(argv, i, a) == Ok::<(ArgsView, int), ErrorView>(
            (ArgsView { targets: a.targets.push(argv[i]), ..a }, i + 1),
        ),
{
    let arg = argv[i];
    lemma_switch_is_option(arg);
    reveal_strlit("--file=");
    reveal_strlit("--directory=");
    reveal_strlit("--jobs=");
    reveal_strlit("-f");
    reveal_strlit("-C");
    reveal_strlit("-I");
    reveal_strlit("-j");
    reveal_strlit("--");
    reveal_strlit("-");
    if search::begins(arg, "--file="@) {
        lemma_begins_option(arg, "--file="@);
    }
    if search::begins(arg, "--directory="@) {
        lemma_begins_option(arg, "--directory="@);
    }
    if search::begins(arg, "--jobs="@) {
        lemma_begins_option(arg, "--jobs="@);
    }
    if search::begins(arg, "-f"@) {
        lemma_begins_option(arg, "-f"@);
    }
    if search::begins(arg, "-C"@) {
        lemma_begins_option(arg, "-C"@);
    }
    if search::begins(arg, "-I"@) {
        lemma_begins_option(arg, "-I"@);
    }
    if search::begins(arg, "-j"@) {
        lemma_begins_option(arg, "-j"@);
    }
    if search::begins(arg, "-"@) {
        lemma_begins_option(arg, "-"@);
    }
    arg.index_of_first_ensures('=');
}

proof fn lemma_targets_from(argv: Seq<Seq<char>>, i: int, a: ArgsView)
    requires
        0 <= i <= argv.len(),
        forall|j: int|
            i <= j < argv.len() ==> !is_option(#[trigger] argv[j]) && !argv[j].contains('='),
    ensures
        parsed_from(argv, i, a) == Ok::<ArgsView, ErrorView>(
            ArgsView { targets: a.targets + argv.skip(i), ..a },
        ),
    decreases argv.len() - i,
{
    if i < argv.len() {
        lemma_target_step(argv, i, a);
        let b = ArgsView { targets: a.targets.push(argv[i]), ..a };
        lemma_targets_from(argv, i + 1, b);
        assert(b.targets + argv.skip(i + 1) =~= a.targets + argv.skip(i));
    } else {
        assert(a.targets + argv.skip(i) =~= a.targets);
    }
}

/// Arguments that neither begin with a `-` nor hold a `=` are the targets, in
/// the order in which they stand.
pub proof fn lemma_targets(argv: Seq<Seq<char>>, nproc: nat)
    requires
        forall|j: int|
            0 <= j < argv.len() ==> !is_option(#[trigger] argv[j]) && !argv[j].contains('='),
    ensures
        parsed_args(argv, nproc) == Ok::<ArgsView, ErrorView>(
            ArgsView { targets: argv, ..default_args() },
        ),
{
    lemma_targets_from(argv, 0, default_args());
    assert(default_args().targets + argv.skip(0) =~= argv);
}

/// Whether the lists in `b` go on from those in `a`.
pub open spec fn adds_to(a: ArgsView, b: ArgsView) -> bool {
    &&& a.targets.len() <= b.targets.len() && b.targets.take(a.targets.len() as int) == a.targets
    &&& a.makefiles.len() <= b.makefiles.len() && b.makefiles.take(a.makefiles.len() as int)
        == a.makefiles
    &&& a.include_dirs.len() <= b.include_dirs.len() && b.include_dirs.take(
        a.include_dirs.len() as int,
    ) == a.include_dirs
    &&& a.overrides.len() <= b.overrides.len() && b.overrides.take(a.overrides.len() as int)
        == a.overrides
}

proof fn lemma_adds_through(a: ArgsView, b: ArgsView, c: ArgsView)
    requires
        adds_to(a, b),
        adds_to(b, c),
    ensures
        adds_to(a, c),
{
    let n = a.targets.len() as int;
    assert(c.targets.take(n) =~= c.targets.take(b.targets.len() as int).take(n));
    let m = a.makefiles.len() as int;
    assert(c.makefiles.take(m) =~= c.makefiles.take(b.makefiles.len() as int).take(m));
    let d = a.include_dirs.len() as int;
    assert(c.include_dirs.take(d) =~= c.include_dirs.take(b.include_dirs.len() as int).take(d));
    let o = a.overrides.len() as int;
    assert(c.overrides.take(o) =~= c.overrides.take(b.overrides.len() as int).take(o));
}

/// Whether `a` and `b` have the same lists.
spec fn same_lists(a: ArgsView, b: ArgsView) -> bool {
    a.targets == b.targets && a.makefiles == b.makefiles && a.include_dirs == b.include_dirs
        && a.overrides == b.overrides
}

proof fn lemma_same_lists(a: ArgsView, b: ArgsView)
    requires
        same_lists(a, b),
    ensures
        adds_to(a, b),
{
    assert(a.targets.take(a.targets.len() as int) =~= a.targets);
    assert(a.makefiles.take(a.makefiles.len() as int) =~= a.makefiles);
    assert(a.include_dirs.take(a.include_dirs.len() as int) =~= a.include_dirs);
    assert(a.overrides.take(a.overrides.len() as int) =~= a.overrides);
}

proof fn lemma_letters_keep(a: ArgsView, flags: Seq<char>, n: int)
    ensures
        letters(a, flags, n) matches Ok(b) ==> same_lists(a, b),
    decreases n,
{
    if n > 0 {
        lemma_letters_keep(a, flags, n - 1);
    }
}

proof fn lemma_step_adds(argv: Seq<Seq<char>>, i: int, a: ArgsView)
    requires
        0 <= i < argv.len(),
    ensures
        step(argv, i, a) matches Ok(p) ==> adds_to(a, p.0),
{
    let arg = argv[i];
    lemma_same_lists(a, a);
    if let Ok(p) = step(argv, i, a) {
        let b = p.0;
        if long_option(a, arg) is Some {
            assert(b.makefiles.take(a.makefiles.len() as int) =~= a.makefiles);
        } else if let Some(w) = switch(arg) {
            lemma_same_lists(a, b);
        } else if valued_option(argv, i, a) is Some {
            assert(b.makefiles.take(a.makefiles.len() as int) =~= a.makefiles);
            assert(b.include_dirs.take(a.include_dirs.len() as int) =~= a.include_dirs);
        } else if arg == "--"@ {
            assert(b.targets.take(a.targets.len() as int) =~= a.targets);
        } else if search::begins(arg, "-"@) {
            let flags = arg.skip(1);
            lemma_letters_keep(a, flags, flags.len() as int);
            lemma_same_lists(a, b);
        } else {
            assert(b.targets.take(a.targets.len() as int) =~= a.targets);
            assert(b.overrides.take(a.overrides.len() as int) =~= a.overrides);
        }
    }
}

/// Reading on only adds to the targets, makefiles, directories and assignments
/// that were given before.
pub proof fn lemma_only_adds(argv: Seq<Seq<char>>, i: int, a: ArgsView)
    requires
        0 <= i <= argv.len(),
    ensures
        parsed_from(argv, i, a) matches Ok(b) ==> adds_to(a, b),
    decreases argv.len() - i,
{
    lemma_same_lists(a, a);
    if i < argv.len() {
        lemma_step_adds(argv, i, a);
        if let Ok(p) = step(argv, i, a) {
            lemma_only_adds(argv, p.1, p.0);
            if let Ok(b) = parsed_from(argv, p.1, p.0) {
                lemma_adds_through(a, p.0, b);
            }
        }
    }
}

proof fn lemma_not_long(a: ArgsView, arg: Seq<char>)
    requires
        arg.len() <= 2,
    ensures
        long_option(a, arg) is None,
{
    reveal_strlit("--file=");
    reveal_strlit("--directory=");
    reveal_strlit("--jobs=");
}

/// Letters that are run together count as the same options given apart, one after
/// the other.
pub proof fn lemma_letters_apart(argv: Seq<Seq<char>>, i: int, a: ArgsView, flags: Seq<char>, n: int)
    requires
        0 <= n <= flags.len(),
        0 <= i,
        i + n <= argv.len(),
        forall|j: int| 0 <= j < n ==> #[trigger] argv[i + j] == "-"@ + seq![flags[j]],
        letters(a, flags, n) is Ok,
    ensures
        parsed_from(argv, i, a) == parsed_from(argv, i + n, letters(a, flags, n)->Ok_0),
    decreases n,
{
    if n > 0 {
        let b = letters(a, flags, n - 1)->Ok_0;
        lemma_letters_apart(argv, i, a, flags, n - 1);
        let arg = argv[i + (n - 1)];
        reveal_strlit("-");
        lemma_not_long(b, arg);
    }
}

/// Every option without a value changes its own setting and no other.
pub proof fn lemma_switches(argv: Seq<Seq<char>>, i: int, a: ArgsView)
    requires
        0 <= i < argv.len(),
    ensures
        argv[i] == "-e"@ || argv[i] == "--environment-overrides"@ ==> step(argv, i, a) == Ok::<(ArgsView, int), ErrorView>(
            (ArgsView { env_override: true, ..a }, i + 1),
        ),
        argv[i] == "-i"@ || argv[i] == "--ignore-errors"@ ==> step(argv, i, a) == Ok::<(ArgsView, int), ErrorView>(
            (ArgsView { ignore_errors: true, ..a }, i + 1),
        ),
        argv[i] == "-k"@ || argv[i] == "--keep-going"@ ==> step(argv, i, a) == Ok::<(ArgsView, int), ErrorView>(
            (ArgsView { keep_going: true, ..a }, i + 1),
        ),
        argv[i] == "-S"@ || argv[i] == "--no-keep-going"@ || argv[i] == "--stop"@ ==> step(argv, i, a) == Ok::<(ArgsView, int), ErrorView>(
            (ArgsView { keep_going: false, ..a }, i + 1),
        ),
        argv[i] == "-n"@ || argv[i] == "--dry-run"@ || argv[i] == "--just-print"@ || argv[i] == "--recon"@ ==> step(argv, i, a) == Ok::<(ArgsView, int), ErrorView>(
            (ArgsView { dry_run: true, ..a }, i + 1),
        ),
        argv[i] == "-p"@ || argv[i] == "--print-data-base"@ ==> step(argv, i, a) == Ok::<(ArgsView, int), ErrorView>(
            (ArgsView { print_db: true, ..a }, i + 1),
        ),
        argv[i] == "-q"@ || argv[i] == "--question"@ ==> step(argv, i, a) == Ok::<(ArgsView, int), ErrorView>(
            (ArgsView { question: true, ..a }, i + 1),
        ),
        argv[i] == "-r"@ || argv[i] == "--no-builtin-rules"@ ==> step(argv, i, a) == Ok::<(ArgsView, int), ErrorView>(
            (ArgsView { no_builtin_rules: true, ..a }, i + 1),
        ),
        argv[i] == "-R"@ || argv[i] == "--no-builtin-variables"@ ==> step(argv, i, a) == Ok::<(ArgsView, int), ErrorView>(
            (ArgsView { no_builtin_rules: true, no_builtin_vars: true, ..a }, i + 1),
        ),
        argv[i] == "-s"@ || argv[i] == "--silent"@ || argv[i] == "--quiet"@ ==> step(argv, i, a) == Ok::<(ArgsView, int), ErrorView>(
            (ArgsView { silent: true, ..a }, i + 1),
        ),
        argv[i] == "-t"@ || argv[i] == "--touch"@ ==> step(argv, i, a) == Ok::<(ArgsView, int), ErrorView>(
            (ArgsView { touch: true, ..a }, i + 1),
        ),
        argv[i] == "-w"@ || argv[i] == "--print-directory"@ ==> step(argv, i, a) == Ok::<(ArgsView, int), ErrorView>(
            (ArgsView { print_directory: true, ..a }, i + 1),
        ),
        argv[i] == "--no-print-directory"@ ==> step(argv, i, a) == Ok::<(ArgsView, int), ErrorView>(
            (ArgsView { print_directory: false, ..a }, i + 1),
        ),
        argv[i] == "--output-sync"@ ==> step(argv, i, a) == Ok::<(ArgsView, int), ErrorView>(
            (ArgsView { output_sync: true, ..a }, i + 1),
        ),
        argv[i] == "--no-output-sync"@ ==> step(argv, i, a) == Ok::<(ArgsView, int), ErrorView>(
            (ArgsView { output_sync: false, ..a }, i + 1),
        ),
{
    lemma_switch_names();
    lemma_switches_short(a);
}

proof fn lemma_switch_names()
    ensures
        switch("-e"@) == Some(Switch::Environment),
        switch("--environment-overrides"@) == Some(Switch::Environment),
        switch("-i"@) == Some(Switch::IgnoreErrors),
        switch("--ignore-errors"@) == Some(Switch::IgnoreErrors),
        switch("-k"@) == Some(Switch::KeepGoing),
        switch("--keep-going"@) == Some(Switch::KeepGoing),
        switch("-S"@) == Some(Switch::Stop),
        switch("--no-keep-going"@) == Some(Switch::Stop),
        switch("--stop"@) == Some(Switch::Stop),
        switch("-n"@) == Some(Switch::DryRun),
        switch("--dry-run"@) == Some(Switch::DryRun),
        switch("--just-print"@) == Some(Switch::DryRun),
        switch("--recon"@) == Some(Switch::DryRun),
        switch("-p"@) == Some(Switch::PrintDb),
        switch("--print-data-base"@) == Some(Switch::PrintDb),
        switch("-q"@) == Some(Switch::Question),
        switch("--question"@) == Some(Switch::Question),
        switch("-r"@) == Some(Switch::NoRules),
        switch("--no-builtin-rules"@) == Some(Switch::NoRules),
        switch("-R"@) == Some(Switch::NoVars),
        switch("--no-builtin-variables"@) == Some(Switch::NoVars),
        switch("-s"@) == Some(Switch::Silent),
        switch("--silent"@) == Some(Switch::Silent),
        switch("--quiet"@) == Some(Switch::Silent),
        switch("-t"@) == Some(Switch::Touch),
        switch("--touch"@) == Some(Switch::Touch),
        switch("-w"@) == Some(Switch::PrintDirectory),
        switch("--print-directory"@) == Some(Switch::PrintDirectory),
        switch("--no-print-directory"@) == Some(Switch::NoPrintDirectory),
        switch("--output-sync"@) == Some(Switch::OutputSync),
        switch("--no-output-sync"@) == Some(Switch::NoOutputSync),
{
    reveal_strlit("-e");
    reveal_strlit("--environment-overrides");
    reveal_strlit("-i");
    reveal_strlit("--ignore-errors");
    reveal_strlit("-k");
    reveal_strlit("--keep-going");
    reveal_strlit("-S");
    reveal_strlit("--no-keep-going");
    reveal_strlit("--stop");
    reveal_strlit("-n");
    reveal_strlit("--dry-run");
    reveal_strlit("--just-print");
    reveal_strlit("--recon");
    reveal_strlit("-p");
    reveal_strlit("--print-data-base");
    reveal_strlit("-q");
    reveal_strlit("--question");
    reveal_strlit("-r");
    reveal_strlit("--no-builtin-rules");
    reveal_strlit("-R");
    reveal_strlit("--no-builtin-variables");
    reveal_strlit("-s");
    reveal_strlit("--silent");
    reveal_strlit("--quiet");
    reveal_strlit("-t");
    reveal_strlit("--touch");
    reveal_strlit("-w");
    reveal_strlit("--print-directory");
    reveal_strlit("--no-print-directory");
    reveal_strlit("--output-sync");
    reveal_strlit("--no-output-sync");
    assert("-e"@.len() == 2);
    assert("--environment-overrides"@.len() == 23);
    assert("-i"@.len() == 2);
    assert("--ignore-errors"@.len() == 15);
    assert("-k"@.len() == 2);
    assert("--keep-going"@.len() == 12);
    assert("-S"@.len() == 2);
    assert("--no-keep-going"@.len() == 15);
    assert("--stop"@.len() == 6);
    assert("-n"@.len() == 2);
    assert("--dry-run"@.len() == 9);
    assert("--just-print"@.len() == 12);
    assert("--recon"@.len() == 7);
    assert("-p"@.len() == 2);
    assert("--print-data-base"@.len() == 17);
    assert("-q"@.len() == 2);
    assert("--question"@.len() == 10);
    assert("-r"@.len() == 2);
    assert("--no-builtin-rules"@.len() == 18);
    assert("-R"@.len() == 2);
    assert("--no-builtin-variables"@.len() == 22);
    assert("-s"@.len() == 2);
    assert("--silent"@.len() == 8);
    assert("--quiet"@.len() == 7);
    assert("-t"@.len() == 2);
    assert("--touch"@.len() == 7);
    assert("-w"@.len() == 2);
    assert("--print-directory"@.len() == 17);
    assert("--no-print-directory"@.len() == 20);
    assert("--output-sync"@.len() == 13);
    assert("--no-output-sync"@.len() == 16);
    assert("-e"@[1] != "-i"@[1]);
    assert("-e"@[1] != "-k"@[1]);
    assert("-e"@[1] != "-S"@[1]);
    assert("-e"@[1] != "-n"@[1]);
    assert("-e"@[1] != "-p"@[1]);
    assert("-e"@[1] != "-q"@[1]);
    assert("-e"@[1] != "-r"@[1]);
    assert("-e"@[1] != "-R"@[1]);
    assert("-e"@[1] != "-s"@[1]);
    assert("-e"@[1] != "-t"@[1]);
    assert("-e"@[1] != "-w"@[1]);
    assert("-i"@[1] != "-k"@[1]);
    assert("-i"@[1] != "-S"@[1]);
    assert("-i"@[1] != "-n"@[1]);
    assert("-i"@[1] != "-p"@[1]);
    assert("-i"@[1] != "-q"@[1]);
    assert("-i"@[1] != "-r"@[1]);
    assert("-i"@[1] != "-R"@[1]);
    assert("-i"@[1] != "-s"@[1]);
    assert("-i"@[1] != "-t"@[1]);
    assert("-i"@[1] != "-w"@[1]);
    assert("--ignore-errors"@[2] != "--no-keep-going"@[2]);
    assert("-k"@[1] != "-S"@[1]);
    assert("-k"@[1] != "-n"@[1]);
    assert("-k"@[1] != "-p"@[1]);
    assert("-k"@[1] != "-q"@[1]);
    assert("-k"@[1] != "-r"@[1]);
    assert("-k"@[1] != "-R"@[1]);
    assert("-k"@[1] != "-s"@[1]);
    assert("-k"@[1] != "-t"@[1]);
    assert("-k"@[1] != "-w"@[1]);
    assert("--keep-going"@[2] != "--just-print"@[2]);
    assert("-S"@[1] != "-n"@[1]);
    assert("-S"@[1] != "-p"@[1]);
    assert("-S"@[1] != "-q"@[1]);
    assert("-S"@[1] != "-r"@[1]);
    assert("-S"@[1] != "-R"@[1]);
    assert("-S"@[1] != "-s"@[1]);
    assert("-S"@[1] != "-t"@[1]);
    assert("-S"@[1] != "-w"@[1]);
    assert("-n"@[1] != "-p"@[1]);
    assert("-n"@[1] != "-q"@[1]);
    assert("-n"@[1] != "-r"@[1]);
    assert("-n"@[1] != "-R"@[1]);
    assert("-n"@[1] != "-s"@[1]);
    assert("-n"@[1] != "-t"@[1]);
    assert("-n"@[1] != "-w"@[1]);
    assert("--recon"@[2] != "--quiet"@[2]);
    assert("--recon"@[2] != "--touch"@[2]);
    assert("-p"@[1] != "-q"@[1]);
    assert("-p"@[1] != "-r"@[1]);
    assert("-p"@[1] != "-R"@[1]);
    assert("-p"@[1] != "-s"@[1]);
    assert("-p"@[1] != "-t"@[1]);
    assert("-p"@[1] != "-w"@[1]);
    assert("--print-data-base"@[9] != "--print-directory"@[9]);
    assert("-q"@[1] != "-r"@[1]);
    assert("-q"@[1] != "-R"@[1]);
    assert("-q"@[1] != "-s"@[1]);
    assert("-q"@[1] != "-t"@[1]);
    assert("-q"@[1] != "-w"@[1]);
    assert("-r"@[1] != "-R"@[1]);
    assert("-r"@[1] != "-s"@[1]);
    assert("-r"@[1] != "-t"@[1]);
    assert("-r"@[1] != "-w"@[1]);
    assert("-R"@[1] != "-s"@[1]);
    assert("-R"@[1] != "-t"@[1]);
    assert("-R"@[1] != "-w"@[1]);
    assert("-s"@[1] != "-t"@[1]);
    assert("-s"@[1] != "-w"@[1]);
    assert("--quiet"@[2] != "--touch"@[2]);
    assert("-t"@[1] != "-w"@[1]);
}

proof fn lemma_not_begun(s: Seq<char>, p: Seq<char>, i: int)
    requires
        0 <= i < p.len(),
        i < s.len(),
        s[i] != p[i],
    ensures
        !search::begins(s, p),
{
    if p.len() <= s.len() {
        assert(s.subrange(0, p.len() as int)[i] == s[i]);
    }
}

proof fn lemma_switches_short(a: ArgsView)
    ensures
        long_option(a, "-e"@) is None,
        long_option(a, "--environment-overrides"@) is None,
        long_option(a, "-i"@) is None,
        long_option(a, "--ignore-errors"@) is None,
        long_option(a, "-k"@) is None,
        long_option(a, "--keep-going"@) is None,
        long_option(a, "-S"@) is None,
        long_option(a, "--no-keep-going"@) is None,
        long_option(a, "--stop"@) is None,
        long_option(a, "-n"@) is None,
        long_option(a, "--dry-run"@) is None,
        long_option(a, "--just-print"@) is None,
        long_option(a, "--recon"@) is None,
        long_option(a, "-p"@) is None,
        long_option(a, "--print-data-base"@) is None,
        long_option(a, "-q"@) is None,
        long_option(a, "--question"@) is None,
        long_option(a, "-r"@) is None,
        long_option(a, "--no-builtin-rules"@) is None,
        long_option(a, "-R"@) is None,
        long_option(a, "--no-builtin-variables"@) is None,
        long_option(a, "-s"@) is None,
        long_option(a, "--silent"@) is None,
        long_option(a, "--quiet"@) is None,
        long_option(a, "-t"@) is None,
        long_option(a, "--touch"@) is None,
        long_option(a, "-w"@) is None,
        long_option(a, "--print-directory"@) is None,
        long_option(a, "--no-print-directory"@) is None,
        long_option(a, "--output-sync"@) is None,
        long_option(a, "--no-output-sync"@) is None,
{
    reveal_strlit("-e");
    reveal_strlit("--environment-overrides");
    reveal_strlit("-i");
    reveal_strlit("--ignore-errors");
    reveal_strlit("-k");
    reveal_strlit("--keep-going");
    reveal_strlit("-S");
    reveal_strlit("--no-keep-going");
    reveal_strlit("--stop");
    reveal_strlit("-n");
    reveal_strlit("--dry-run");
    reveal_strlit("--just-print");
    reveal_strlit("--recon");
    reveal_strlit("-p");
    reveal_strlit("--print-data-base");
    reveal_strlit("-q");
    reveal_strlit("--question");
    reveal_strlit("-r");
    reveal_strlit("--no-builtin-rules");
    reveal_strlit("-R");
    reveal_strlit("--no-builtin-variables");
    reveal_strlit("-s");
    reveal_strlit("--silent");
    reveal_strlit("--quiet");
    reveal_strlit("-t");
    reveal_strlit("--touch");
    reveal_strlit("-w");
    reveal_strlit("--print-directory");
    reveal_strlit("--no-print-directory");
    reveal_strlit("--output-sync");
    reveal_strlit("--no-output-sync");
    reveal_strlit("--file=");
    reveal_strlit("--directory=");
    reveal_strlit("--jobs=");
    lemma_not_begun("--environment-overrides"@, "--file="@, 2);
    lemma_not_begun("--environment-overrides"@, "--directory="@, 2);
    lemma_not_begun("--environment-overrides"@, "--jobs="@, 2);
    lemma_not_begun("--ignore-errors"@, "--file="@, 2);
    lemma_not_begun("--ignore-errors"@, "--directory="@, 2);
    lemma_not_begun("--ignore-errors"@, "--jobs="@, 2);
    lemma_not_begun("--keep-going"@, "--file="@, 2);
    lemma_not_begun("--keep-going"@, "--directory="@, 2);
    lemma_not_begun("--keep-going"@, "--jobs="@, 2);
    lemma_not_begun("--no-keep-going"@, "--file="@, 2);
    lemma_not_begun("--no-keep-going"@, "--directory="@, 2);
    lemma_not_begun("--no-keep-going"@, "--jobs="@, 2);
    lemma_not_begun("--dry-run"@, "--file="@, 2);
    lemma_not_begun("--dry-run"@, "--jobs="@, 2);
    lemma_not_begun("--just-print"@, "--file="@, 2);
    lemma_not_begun("--just-print"@, "--directory="@, 2);
    lemma_not_begun("--just-print"@, "--jobs="@, 3);
    lemma_not_begun("--recon"@, "--file="@, 2);
    lemma_not_begun("--recon"@, "--jobs="@, 2);
    lemma_not_begun("--print-data-base"@, "--file="@, 2);
    lemma_not_begun("--print-data-base"@, "--directory="@, 2);
    lemma_not_begun("--print-data-base"@, "--jobs="@, 2);
    lemma_not_begun("--question"@, "--file="@, 2);
    lemma_not_begun("--question"@, "--jobs="@, 2);
    lemma_not_begun("--no-builtin-rules"@, "--file="@, 2);
    lemma_not_begun("--no-builtin-rules"@, "--directory="@, 2);
    lemma_not_begun("--no-builtin-rules"@, "--jobs="@, 2);
    lemma_not_begun("--no-builtin-variables"@, "--file="@, 2);
    lemma_not_begun("--no-builtin-variables"@, "--directory="@, 2);
    lemma_not_begun("--no-builtin-variables"@, "--jobs="@, 2);
    lemma_not_begun("--silent"@, "--file="@, 2);
    lemma_not_begun("--silent"@, "--jobs="@, 2);
    lemma_not_begun("--quiet"@, "--file="@, 2);
    lemma_not_begun("--quiet"@, "--jobs="@, 2);
    lemma_not_begun("--touch"@, "--file="@, 2);
    lemma_not_begun("--touch"@, "--jobs="@, 2);
    lemma_not_begun("--print-directory"@, "--file="@, 2);
    lemma_not_begun("--print-directory"@, "--directory="@, 2);
    lemma_not_begun("--print-directory"@, "--jobs="@, 2);
    lemma_not_begun("--no-print-directory"@, "--file="@, 2);
    lemma_not_begun("--no-print-directory"@, "--directory="@, 2);
    lemma_not_begun("--no-print-directory"@, "--jobs="@, 2);
    lemma_not_begun("--output-sync"@, "--file="@, 2);
    lemma_not_begun("--output-sync"@, "--directory="@, 2);
    lemma_not_begun("--output-sync"@, "--jobs="@, 2);
    lemma_not_begun("--no-output-sync"@, "--file="@, 2);
    lemma_not_begun("--no-output-sync"@, "--directory="@, 2);
    lemma_not_begun("--no-output-sync"@, "--jobs="@, 2);
}

proof fn lemma_begun(p: Seq<char>, v: Seq<char>)
    ensures
        search::begins(p + v, p),
        (p + v).skip(p.len() as int) == v,
{
    assert((p + v).subrange(0, p.len() as int) =~= p);
    assert((p + v).skip(p.len() as int) =~= v);
}

/// What an option of one letter with a value changes.
pub open spec fn valued(a: ArgsView, letter: char, v: Seq<char>) -> ArgsView {
    if letter == 'f' {
        ArgsView { makefiles: a.makefiles.push(v), ..a }
    } else if letter == 'C' {
        ArgsView { directory: Some(v), ..a }
    } else {
        ArgsView { include_dirs: a.include_dirs.push(v), ..a }
    }
}

/// The value of `-f`, `-C` and `-I` follows the letter, or is the next argument; without
/// either it is an error.
pub proof fn lemma_valued(argv: Seq<Seq<char>>, i: int, a: ArgsView, letter: char, v: Seq<char>)
    requires
        0 <= i < argv.len(),
        letter == 'f' || letter == 'C' || letter == 'I',
    ensures
        v.len() > 0 && argv[i] == seq!['-', letter] + v ==> step(argv, i, a) == Ok::<
            (ArgsView, int),
            ErrorView,
        >((valued(a, letter, v), i + 1)),
        argv[i] == seq!['-', letter] && i + 1 < argv.len() ==> step(argv, i, a) == Ok::<
            (ArgsView, int),
            ErrorView,
        >((valued(a, letter, argv[i + 1]), i + 2)),
        argv[i] == seq!['-', letter] && i + 1 == argv.len() ==> step(argv, i, a) is Err,
{
    let arg = argv[i];
    reveal_strlit("-f");
    reveal_strlit("-C");
    reveal_strlit("-I");
    reveal_strlit("-j");
    assert("-f"@ =~= seq!['-', 'f']);
    assert("-C"@ =~= seq!['-', 'C']);
    assert("-I"@ =~= seq!['-', 'I']);
    assert("-j"@ =~= seq!['-', 'j']);
    if arg == seq!['-', letter] + v || arg == seq!['-', letter] {
        assert(arg[0] == '-' && arg[1] == letter);
        lemma_no_switch(arg, a);
        assert(arg.subrange(0, 2) =~= seq!['-', letter]);
        if letter != 'f' {
            lemma_not_begun(arg, "-f"@, 1);
        }
        if letter != 'C' {
            lemma_not_begun(arg, "-C"@, 1);
        }
        if letter != 'I' {
            lemma_not_begun(arg, "-I"@, 1);
        }
        if arg == seq!['-', letter] + v {
            assert(arg.skip(2) =~= v);
        } else {
            assert(arg.skip(2).len() == 0);
        }
    }
}

proof fn lemma_no_switch(arg: Seq<char>, a: ArgsView)
    requires
        arg.len() >= 2,
        arg[0] == '-',
        arg[1] == 'f' || arg[1] == 'C' || arg[1] == 'I' || arg[1] == 'j',
    ensures
        switch(arg) is None,
        long_option(a, arg) is None,
{
    reveal_strlit("--file=");
    reveal_strlit("--directory=");
    reveal_strlit("--jobs=");
    lemma_not_begun(arg, "--file="@, 1);
    lemma_not_begun(arg, "--directory="@, 1);
    lemma_not_begun(arg, "--jobs="@, 1);
    reveal_strlit("-e");
    assert("-e"@[1] != arg[1]);
    reveal_strlit("--environment-overrides");
    assert("--environment-overrides"@[1] != arg[1]);
    reveal_strlit("-i");
    assert("-i"@[1] != arg[1]);
    reveal_strlit("--ignore-errors");
    assert("--ignore-errors"@[1] != arg[1]);
    reveal_strlit("-k");
    assert("-k"@[1] != arg[1]);
    reveal_strlit("--keep-going");
    assert("--keep-going"@[1] != arg[1]);
    reveal_strlit("-S");
    assert("-S"@[1] != arg[1]);
    reveal_strlit("--no-keep-going");
    assert("--no-keep-going"@[1] != arg[1]);
    reveal_strlit("--stop");
    assert("--stop"@[1] != arg[1]);
    reveal_strlit("-n");
    assert("-n"@[1] != arg[1]);
    reveal_strlit("--dry-run");
    assert("--dry-run"@[1] != arg[1]);
    reveal_strlit("--just-print");
    assert("--just-print"@[1] != arg[1]);
    reveal_strlit("--recon");
    assert("--recon"@[1] != arg[1]);
    reveal_strlit("-p");
    assert("-p"@[1] != arg[1]);
    reveal_strlit("--print-data-base");
    assert("--print-data-base"@[1] != arg[1]);
    reveal_strlit("-q");
    assert("-q"@[1] != arg[1]);
    reveal_strlit("--question");
    assert("--question"@[1] != arg[1]);
    reveal_strlit("-r");
    assert("-r"@[1] != arg[1]);
    reveal_strlit("--no-builtin-rules");
    assert("--no-builtin-rules"@[1] != arg[1]);
    reveal_strlit("-R");
    assert("-R"@[1] != arg[1]);
    reveal_strlit("--no-builtin-variables");
    assert("--no-builtin-variables"@[1] != arg[1]);
    reveal_strlit("-s");
    assert("-s"@[1] != arg[1]);
    reveal_strlit("--silent");
    assert("--silent"@[1] != arg[1]);
    reveal_strlit("--quiet");
    assert("--quiet"@[1] != arg[1]);
    reveal_strlit("-t");
    assert("-t"@[1] != arg[1]);
    reveal_strlit("--touch");
    assert("--touch"@[1] != arg[1]);
    reveal_strlit("-w");
    assert("-w"@[1] != arg[1]);
    reveal_strlit("--print-directory");
    assert("--print-directory"@[1] != arg[1]);
    reveal_strlit("--no-print-directory");
    assert("--no-print-directory"@[1] != arg[1]);
    reveal_strlit("--output-sync");
    assert("--output-sync"@[1] != arg[1]);
    reveal_strlit("--no-output-sync");
    assert("--no-output-sync"@[1] != arg[1]);
}

/// `-j` with a number asks for that many jobs, and alone for as many as there are
/// processors.
pub proof fn lemma_jobs(argv: Seq<Seq<char>>, i: int, a: ArgsView, n: usize)
    requires
        0 <= i < argv.len(),
    ensures
        argv[i] == seq!['-', 'j'] + number::decimal(n as nat) ==> step(argv, i, a) == Ok::<
            (ArgsView, int),
            ErrorView,
        >((ArgsView { jobs: n as nat, ..a }, i + 1)),
        argv[i] == seq!['-', 'j'] ==> step(argv, i, a) == Ok::<(ArgsView, int), ErrorView>(
            (ArgsView { jobs: 0, ..a }, i + 1),
        ),
        argv[i] == "--jobs="@ + number::decimal(n as nat) ==> step(argv, i, a) == Ok::<
            (ArgsView, int),
            ErrorView,
        >((ArgsView { jobs: n as nat, ..a }, i + 1)),
        with_jobs((ArgsView { jobs: 0, ..a }), n as nat) == (ArgsView { jobs: n as nat, ..a }),
        a.jobs > 0 ==> with_jobs(a, n as nat) == a,
{
    let arg = argv[i];
    let v = number::decimal(n as nat);
    number::lemma_parse_decimal(n);
    number::lemma_decimal_digits(n as nat);
    reveal_strlit("-f");
    reveal_strlit("-C");
    reveal_strlit("-I");
    reveal_strlit("-j");
    reveal_strlit("--file=");
    reveal_strlit("--directory=");
    reveal_strlit("--jobs=");
    assert("-j"@ =~= seq!['-', 'j']);
    if arg == seq!['-', 'j'] + v || arg == seq!['-', 'j'] {
        assert(arg[0] == '-' && arg[1] == 'j');
        lemma_no_switch(arg, a);
        lemma_not_begun(arg, "-f"@, 1);
        lemma_not_begun(arg, "-C"@, 1);
        lemma_not_begun(arg, "-I"@, 1);
        assert(arg.subrange(0, 2) =~= seq!['-', 'j']);
        if arg == seq!['-', 'j'] + v {
            assert(arg.skip(2) =~= v);
        } else {
            assert(arg.skip(2).len() == 0);
        }
    }
    if arg == "--jobs="@ + v {
        lemma_begun("--jobs="@, v);
        assert(arg[2] == "--jobs="@[2]);
        lemma_not_begun(arg, "--file="@, 2);
        lemma_not_begun(arg, "--directory="@, 2);
    }
}

/// `--file=` and `--directory=` take all that follows them.
pub proof fn lemma_long(argv: Seq<Seq<char>>, i: int, a: ArgsView, v: Seq<char>)
    requires
        0 <= i < argv.len(),
    ensures
        argv[i] == "--file="@ + v ==> step(argv, i, a) == Ok::<(ArgsView, int), ErrorView>(
            (ArgsView { makefiles: a.makefiles.push(v), ..a }, i + 1),
        ),
        argv[i] == "--directory="@ + v ==> step(argv, i, a) == Ok::<(ArgsView, int), ErrorView>(
            (ArgsView { directory: Some(v), ..a }, i + 1),
        ),
{
    let arg = argv[i];
    reveal_strlit("--file=");
    reveal_strlit("--directory=");
    if arg == "--file="@ + v {
        lemma_begun("--file="@, v);
    }
    if arg == "--directory="@ + v {
        lemma_begun("--directory="@, v);
        assert(arg[2] == "--directory="@[2]);
        lemma_not_begun(arg, "--file="@, 2);
    }
}

/// An argument that does not begin with `-` is an assignment where it has a `=` with the
/// name of a variable before the first one, and otherwise a target.
pub proof fn lemma_operands(
    argv: Seq<Seq<char>>,
    i: int,
    a: ArgsView,
    name: Seq<char>,
    value: Seq<char>,
)
    requires
        0 <= i < argv.len(),
        argv[i].len() == 0 || argv[i][0] != '-',
    ensures
        !name.contains('=') && argv[i] == name + seq!['='] + value && name.len() > 0 && (forall|
            n: int,
        |
            0 <= n < name.len() ==> char_is_alphanumeric(#[trigger] name[n]) || name[n] == '_'
                || name[n] == '.') ==> step(argv, i, a) == Ok::<(ArgsView, int), ErrorView>(
            (ArgsView { overrides: a.overrides.push((name, value)), ..a }, i + 1),
        ),
        !argv[i].contains('=') ==> step(argv, i, a) == Ok::<(ArgsView, int), ErrorView>(
            (ArgsView { targets: a.targets.push(argv[i]), ..a }, i + 1),
        ),
        !name.contains('=') && argv[i] == name + seq!['='] + value && (name.len() == 0 || exists|
            n: int,
        |
            0 <= n < name.len() && !char_is_alphanumeric(#[trigger] name[n]) && name[n] != '_'
                && name[n] != '.') ==> step(argv, i, a) == Ok::<(ArgsView, int), ErrorView>(
            (ArgsView { targets: a.targets.push(argv[i]), ..a }, i + 1),
        ),
{
    let arg = argv[i];
    lemma_plain_argument(argv, i, a);
    arg.index_of_first_ensures('=');
    if !name.contains('=') && arg == name + seq!['='] + value {
        let n = name.len() as int;
        assert(arg[n] == '=');
        assert(arg.contains('='));
        let e = arg.index_of_first('=')->Some_0;
        assert(e == n) by {
            if e < n {
                assert(name[e] == '=');
            }
        }
        assert(arg.take(n) =~= name);
        assert(arg.skip(n + 1) =~= value);
    }
}

proof fn lemma_plain_argument(argv: Seq<Seq<char>>, i: int, a: ArgsView)
    requires
        0 <= i < argv.len(),
        argv[i].len() == 0 || argv[i][0] != '-',
    ensures
        step(argv, i, a) == (match other_argument(a, argv[i]) {
            Ok(b) => Ok::<(ArgsView, int), ErrorView>((b, i + 1)),
            Err(e) => Err(e),
        }),
        !search::begins(argv[i], "-"@),
{
    let arg = argv[i];
    reveal_strlit("-");
    reveal_strlit("--");
    reveal_strlit("-f");
    reveal_strlit("-C");
    reveal_strlit("-I");
    reveal_strlit("-j");
    reveal_strlit("--file=");
    reveal_strlit("--directory=");
    reveal_strlit("--jobs=");
    lemma_switch_is_option(arg);
    if arg.len() > 0 {
        lemma_not_begun(arg, "-"@, 0);
        lemma_not_begun(arg, "-f"@, 0);
        lemma_not_begun(arg, "-C"@, 0);
        lemma_not_begun(arg, "-I"@, 0);
        lemma_not_begun(arg, "-j"@, 0);
        lemma_not_begun(arg, "--file="@, 0);
        lemma_not_begun(arg, "--directory="@, 0);
        lemma_not_begun(arg, "--jobs="@, 0);
    }
}

/// Before anything is read nothing is asked for: every switch is off but the joining of
/// output, there is one job, and all lists are empty.
pub proof fn lemma_defaults(nproc: nat)
    ensures
        parsed_args(seq![], nproc) matches Ok(a) && {
            &&& a.makefiles.len() == 0 && a.targets.len() == 0 && a.include_dirs.len() == 0
                && a.overrides.len() == 0
            &&& a.directory is None
            &&& !a.env_override && !a.ignore_errors && !a.keep_going && !a.dry_run && !a.print_db
                && !a.question && !a.no_builtin_rules && !a.no_builtin_vars && !a.silent
                && !a.touch && !a.print_directory
            &&& a.output_sync
            &&& a.jobs == 1
        },
{
}

/// Arguments are read one after the other; the first that cannot be read is the error.
pub proof fn lemma_in_turn(argv: Seq<Seq<char>>, i: int, a: ArgsView)
    requires
        0 <= i < argv.len(),
    ensures
        match step(argv, i, a) {
            Ok(p) => parsed_from(argv, i, a) == parsed_from(argv, p.1, p.0) && i < p.1
                <= argv.len(),
            Err(e) => parsed_from(argv, i, a) == Err::<ArgsView, ErrorView>(e),
        },
        parsed_from(argv, argv.len() as int, a) == Ok::<ArgsView, ErrorView>(a),
{
}

/// After `--` all that follows are targets.
pub proof fn lemma_rest_are_targets(argv: Seq<Seq<char>>, i: int, a: ArgsView)
    requires
        0 <= i < argv.len(),
        argv[i] == seq!['-', '-'],
    ensures
        parsed_from(argv, i, a) == Ok::<ArgsView, ErrorView>(
            ArgsView { targets: a.targets + argv.skip(i + 1), ..a },
        ),
{
    let arg = argv[i];
    reveal_strlit("--");
    assert("--"@ =~= seq!['-', '-']);
    lemma_not_long(a, arg);
    reveal_strlit("-f");
    reveal_strlit("-C");
    reveal_strlit("-I");
    reveal_strlit("-j");
    lemma_not_begun(arg, "-f"@, 1);
    lemma_not_begun(arg, "-C"@, 1);
    lemma_not_begun(arg, "-I"@, 1);
    lemma_not_begun(arg, "-j"@, 1);
    reveal_strlit("-e");
    reveal_strlit("--environment-overrides");
    reveal_strlit("-i");
    reveal_strlit("--ignore-errors");
    reveal_strlit("-k");
    reveal_strlit("--keep-going");
    reveal_strlit("-S");
    reveal_strlit("--no-keep-going");
    reveal_strlit("--stop");
    reveal_strlit("-n");
    reveal_strlit("--dry-run");
    reveal_strlit("--just-print");
    reveal_strlit("--recon");
    reveal_strlit("-p");
    reveal_strlit("--print-data-base");
    reveal_strlit("-q");
    reveal_strlit("--question");
    reveal_strlit("-r");
    reveal_strlit("--no-builtin-rules");
    reveal_strlit("-R");
    reveal_strlit("--no-builtin-variables");
    reveal_strlit("-s");
    reveal_strlit("--silent");
    reveal_strlit("--quiet");
    reveal_strlit("-t");
    reveal_strlit("--touch");
    reveal_strlit("-w");
    reveal_strlit("--print-directory");
    reveal_strlit("--no-print-directory");
    reveal_strlit("--output-sync");
    reveal_strlit("--no-output-sync");
    assert("-e"@[1] != '-');
    assert("-i"@[1] != '-');
    assert("-k"@[1] != '-');
    assert("-S"@[1] != '-');
    assert("-n"@[1] != '-');
    assert("-p"@[1] != '-');
    assert("-q"@[1] != '-');
    assert("-r"@[1] != '-');
    assert("-R"@[1] != '-');
    assert("-s"@[1] != '-');
    assert("-t"@[1] != '-');
    assert("-w"@[1] != '-');
    assert("--environment-overrides"@.len() != 2);
    assert("--ignore-errors"@.len() != 2);
    assert("--keep-going"@.len() != 2);
    assert("--no-keep-going"@.len() != 2);
    assert("--stop"@.len() != 2);
    assert("--dry-run"@.len() != 2);
    assert("--just-print"@.len() != 2);
    assert("--recon"@.len() != 2);
    assert("--print-data-base"@.len() != 2);
    assert("--question"@.len() != 2);
    assert("--no-builtin-rules"@.len() != 2);
    assert("--no-builtin-variables"@.len() != 2);
    assert("--silent"@.len() != 2);
    assert("--quiet"@.len() != 2);
    assert("--touch"@.len() != 2);
    assert("--print-directory"@.len() != 2);
    assert("--no-print-directory"@.len() != 2);
    assert("--output-sync"@.len() != 2);
    assert("--no-output-sync"@.len() != 2);
    let b = ArgsView { targets: a.targets + argv.skip(i + 1), ..a };
    let n = argv.len() as int;
    assert(switch(arg) is None);
    assert(valued_option(argv, i, a) is None);
    assert(step(argv, i, a) == Ok::<(ArgsView, int), ErrorView>((b, n)));
    assert(parsed_from(argv, n, b) == Ok::<ArgsView, ErrorView>(b));
}

/// What `MAKEFLAGS` stands for: its words, and where the first of them has no dash, that
/// word with one before it, so that it is read as letters. Blank text stands for nothing.
pub proof fn lemma_makeflags(w: Seq<char>, c: char, t: Seq<char>)
    requires
        text::is_word(w),
        text::is_space(c),
    ensures
        makeflags_argv(seq![]) == Seq::<Seq<char>>::empty(),
        w[0] != '-' ==> makeflags_argv(w) == seq![seq!['-'] + w],
        w[0] == '-' ==> makeflags_argv(w) == seq![w],
        t.len() > 0 && !text::is_space(t[0]) && !text::is_space(t.last()) && w[0] != '-'
            ==> makeflags_argv(w + seq![c] + t) == seq![seq!['-'] + w] + text::words(t),
        t.len() > 0 && !text::is_space(t[0]) && !text::is_space(t.last()) && w[0] == '-'
            ==> makeflags_argv(w + seq![c] + t) == seq![w] + text::words(t),
{
    reveal_strlit("-");
    assert("-"@ =~= seq!['-']);
    let none = Seq::<char>::empty();
    assert(text::trim(none) =~= none);
    text::lemma_words_apart(c, w, t);
    text::lemma_trim_gives(none, w, none);
    assert(none + w + none =~= w);
    lemma_word_ends_at(w, none, 0);
    assert(w + none =~= w);
    assert(w.take(w.len() as int) =~= w);
    assert(w.skip(w.len() as int) =~= none);
    assert(text::words(none) =~= seq![]);
    assert(seq![seq!['-'] + w] + text::words(none) =~= seq![seq!['-'] + w]);
    if t.len() > 0 && !text::is_space(t[0]) && !text::is_space(t.last()) {
        let s = w + seq![c] + t;
        assert(s.last() == t.last());
        assert(s[0] == w[0]);
        text::lemma_trim_gives(none, s, none);
        assert(none + s + none =~= s);
        assert(s =~= w + (seq![c] + t));
        lemma_word_ends_at(w, seq![c] + t, 0);
        assert(s.take(w.len() as int) =~= w);
        assert(s.skip(w.len() as int) =~= seq![c] + t + none);
        text::lemma_trim_gives(seq![c], t, none);
    }
}

proof fn lemma_word_ends_at(w: Seq<char>, rest: Seq<char>, i: int)
    requires
        text::is_word(w),
        0 <= i <= w.len(),
        rest.len() == 0 || text::is_space(rest[0]),
    ensures
        text::word_end(w + rest, i) == w.len(),
    decreases w.len() - i,
{
    if i < w.len() {
        assert((w + rest)[i] == w[i]);
        lemma_word_ends_at(w, rest, i + 1);
    } else if rest.len() > 0 {
        assert((w + rest)[i] == rest[0]);
    }
}

} // verus!
