//! What the library asks of the world outside, and how the answers come back.
//!
//! A computation that needs something from outside reads it from a
//! [`Transcript`], the answers given so far. Where the transcript has run out it
//! stops with the question that is still open. The caller then finds the answer,
//! adds it to the transcript and starts the computation again: it is a function
//! of its arguments and the answers alone, so it comes to the same point and
//! goes on from there.

use vstd::prelude::*;
use crate::error::{Error, ErrorView};
use crate::names::NameMap;
use crate::text;
use crate::text::{dup_all, Dup};

verus! {

/// Something to find out or to do outside.
#[derive(Debug)]
pub enum Query {
    /// The names in a directory.
    ListDir(String),
    /// A path with all links resolved.
    RealPath(String),
    /// The working directory.
    WorkDir,
    /// A directory to work in from now on.
    ChangeDir(String),
    /// The output of a shell command.
    Shell(String),
    /// A line for the error stream.
    Warn(String),
    /// A line for the output stream.
    Print(String),
    /// An error to report.
    Report(Error),
    /// Makefile text to read in.
    Eval(String),
    /// Whether a path leads to something.
    Exists(String),
    /// The contents of a file.
    ReadFile(String),
    /// The contents of the input stream.
    ReadInput,
    /// When a file was last modified.
    ModTime(String),
    /// A command to run, with variables to add to its environment.
    Run { shell: String, command: String, exports: NameMap<String> },
    /// A file to mark as modified now.
    Touch(String),
    /// A file to create.
    Create(String),
}

#[verifier::ext_equal]
pub enum QueryView {
    ListDir(Seq<char>),
    RealPath(Seq<char>),
    WorkDir,
    ChangeDir(Seq<char>),
    Shell(Seq<char>),
    Warn(Seq<char>),
    Print(Seq<char>),
    Report(ErrorView),
    Eval(Seq<char>),
    Exists(Seq<char>),
    ReadFile(Seq<char>),
    ReadInput,
    ModTime(Seq<char>),
    Run { shell: Seq<char>, command: Seq<char>, exports: Map<Seq<char>, Seq<char>> },
    Touch(Seq<char>),
    Create(Seq<char>),
}

impl View for Query {
    type V = QueryView;

    open spec fn view(&self) -> QueryView {
        match *self {
            Query::ListDir(s) => QueryView::ListDir(s@),
            Query::RealPath(s) => QueryView::RealPath(s@),
            Query::WorkDir => QueryView::WorkDir,
            Query::ChangeDir(s) => QueryView::ChangeDir(s@),
            Query::Shell(s) => QueryView::Shell(s@),
            Query::Warn(s) => QueryView::Warn(s@),
            Query::Print(s) => QueryView::Print(s@),
            Query::Report(e) => QueryView::Report(e@),
            Query::Eval(s) => QueryView::Eval(s@),
            Query::Exists(s) => QueryView::Exists(s@),
            Query::ReadFile(s) => QueryView::ReadFile(s@),
            Query::ReadInput => QueryView::ReadInput,
            Query::ModTime(s) => QueryView::ModTime(s@),
            Query::Run { shell, command, exports } => QueryView::Run {
                shell: shell@,
                command: command@,
                exports: exports@,
            },
            Query::Touch(s) => QueryView::Touch(s@),
            Query::Create(s) => QueryView::Create(s@),
        }
    }
}

/// What came back.
#[derive(Debug)]
pub enum Answer {
    Text(String),
    Names(Vec<String>),
    /// A time, in nanoseconds from a fixed moment.
    Time(i128),
    Flag(bool),
    /// How a command ended: its exit status, or none where it had none.
    Exit(Option<i32>),
    Done,
    /// It could not be done, for the reason given.
    Failed(String),
    /// It was refused with an error of this program.
    Rejected(Error),
}

#[verifier::ext_equal]
pub enum AnswerView {
    Text(Seq<char>),
    Names(Seq<Seq<char>>),
    Time(i128),
    Flag(bool),
    Exit(Option<i32>),
    Done,
    Failed(Seq<char>),
    Rejected(ErrorView),
}

impl View for Answer {
    type V = AnswerView;

    open spec fn view(&self) -> AnswerView {
        match *self {
            Answer::Text(s) => AnswerView::Text(s@),
            Answer::Names(v) => AnswerView::Names(text::views(v@)),
            Answer::Time(n) => AnswerView::Time(n),
            Answer::Flag(b) => AnswerView::Flag(b),
            Answer::Exit(c) => AnswerView::Exit(c),
            Answer::Done => AnswerView::Done,
            Answer::Failed(s) => AnswerView::Failed(s@),
            Answer::Rejected(e) => AnswerView::Rejected(e@),
        }
    }
}

impl Dup for Answer {
    fn dup(&self) -> (r: Self) {
        match self {
            Answer::Text(s) => Answer::Text(s.dup()),
            Answer::Names(v) => Answer::Names(dup_all(v.as_slice())),
            Answer::Time(n) => Answer::Time(*n),
            Answer::Flag(b) => Answer::Flag(*b),
            Answer::Exit(c) => Answer::Exit(*c),
            Answer::Done => Answer::Done,
            Answer::Failed(s) => Answer::Failed(s.dup()),
            Answer::Rejected(e) => Answer::Rejected(e.dup()),
        }
    }
}

/// Why a computation did not finish.
#[derive(Debug)]
pub enum Stop {
    /// It failed.
    Failed(Error),
    /// It needs an answer first.
    Ask(Query),
}

#[verifier::ext_equal]
pub enum StopView {
    Failed(ErrorView),
    Ask(QueryView),
}

impl View for Stop {
    type V = StopView;

    open spec fn view(&self) -> StopView {
        match *self {
            Stop::Failed(e) => StopView::Failed(e@),
            Stop::Ask(q) => StopView::Ask(q@),
        }
    }
}

/// The result of a computation that reads answers: its value, or why it stopped,
/// and the number of answers it has used.
pub type Told<T> = Result<(T, nat), (StopView, nat)>;

/// The answer at position `k`, or the question where there is none yet.
pub open spec fn asked(log: Seq<AnswerView>, k: nat, q: QueryView) -> Told<AnswerView> {
    if k < log.len() {
        Ok((log[k as int], k + 1))
    } else {
        Err((StopView::Ask(q), k))
    }
}

/// A computation that fails.
pub open spec fn failed<T>(e: ErrorView, k: nat) -> Told<T> {
    Err((StopView::Failed(e), k))
}

/// The answers given so far, and how many have been used.
#[derive(Debug)]
pub struct Transcript {
    answers: Vec<Answer>,
    next: usize,
}

impl Transcript {
    #[verifier::type_invariant]
    spec fn in_range(self) -> bool {
        self.next <= self.answers@.len()
    }

    /// The answers.
    pub closed spec fn log(self) -> Seq<AnswerView> {
        text::views(self.answers@)
    }

    /// The number of answers used.
    pub closed spec fn at(self) -> nat {
        self.next as nat
    }

    /// A transcript without answers.
    pub fn new() -> (r: Self)
        ensures
            r.log() == Seq::<AnswerView>::empty(),
            r.at() == 0,
    {
        broadcast use text::group_views;

        Transcript { answers: Vec::new(), next: 0 }
    }

    /// A transcript of the given answers.
    pub fn of(answers: Vec<Answer>) -> (r: Self)
        ensures
            r.log() == text::views(answers@),
            r.at() == 0,
    {
        Transcript { answers, next: 0 }
    }

    /// Adds an answer and goes back to the start.
    pub fn add(self, a: Answer) -> (r: Self)
        ensures
            r.log() == self.log().push(a@),
            r.at() == 0,
    {
        broadcast use text::group_views;

        let mut answers = self.answers;
        answers.push(a);
        Transcript { answers, next: 0 }
    }

    /// The number of answers.
    pub fn count(&self) -> (r: usize)
        ensures
            r == self.log().len(),
    {
        self.answers.len()
    }

    /// The number of answers used.
    pub fn used(&self) -> (r: usize)
        ensures
            r == self.at(),
            r <= self.log().len(),
    {
        proof {
            use_type_invariant(self);
        }
        self.next
    }

    /// Reads the next answer, or stops with the question.
    pub fn ask(&mut self, q: Query) -> (r: Result<Answer, Stop>)
        ensures
            tells(r, *old(self), *final(self), asked(old(self).log(), old(self).at(), q@)),
    {
        if self.next < self.answers.len() {
            let a = self.answers[self.next].dup();
            self.next = self.next + 1;
            Ok(a)
        } else {
            Err(Stop::Ask(q))
        }
    }
}

/// Whether a computation that went from transcript `t0` to `t1` gave the result
/// that is wanted of it.
pub open spec fn tells<T: View>(
    r: Result<T, Stop>,
    t0: Transcript,
    t1: Transcript,
    want: Told<T::V>,
) -> bool {
    &&& t1.log() == t0.log()
    &&& match want {
        Ok(p) => r is Ok && r->Ok_0@ == p.0 && t1.at() == p.1,
        Err(s) => r is Err && r->Err_0@ == s.0 && t1.at() == s.1,
    }
}

/// Whether a computation that went from transcript `t0` to `t1` left behind the
/// value `now` that is wanted of it.
pub open spec fn moves<V>(
    r: Result<(), Stop>,
    t0: Transcript,
    t1: Transcript,
    now: V,
    want: Told<V>,
) -> bool {
    &&& t1.log() == t0.log()
    &&& match want {
        Ok(p) => r is Ok && now == p.0 && t1.at() == p.1,
        Err(s) => r is Err && r->Err_0@ == s.0 && t1.at() == s.1,
    }
}

/// A failure taken as a value, after which the computation goes on.
pub open spec fn caught(r: Told<()>) -> Told<Option<ErrorView>> {
    match r {
        Ok(p) => Ok((None, p.1)),
        Err(s) => match s.0 {
            StopView::Failed(e) => Ok((Some(e), s.1)),
            StopView::Ask(q) => Err(s),
        },
    }
}

/// A result with something put before its value.
pub open spec fn after<T>(head: Seq<T>, r: Told<Seq<T>>) -> Told<Seq<T>> {
    match r {
        Err(s) => Err(s),
        Ok(p) => Ok((head + p.0, p.1)),
    }
}

pub proof fn lemma_after_after<T>(a: Seq<T>, b: Seq<T>, r: Told<Seq<T>>)
    ensures
        after(a, after(b, r)) == after(a + b, r),
{
    if let Ok(p) = r {
        assert(a + (b + p.0) =~= a + b + p.0);
    }
}

pub proof fn lemma_after_nothing<T>(r: Told<Seq<T>>)
    ensures
        after(Seq::<T>::empty(), r) == r,
{
    if let Ok(p) = r {
        assert(Seq::<T>::empty() + p.0 =~= p.0);
    }
}

/// Whether an answer says yes.
pub open spec fn says_yes(a: AnswerView) -> bool {
    a == AnswerView::Flag(true)
}

/// Tests whether an answer says yes.
pub fn is_yes(a: &Answer) -> (r: bool)
    ensures
        r == says_yes(a@),
{
    match a {
        Answer::Flag(b) => *b,
        _ => false,
    }
}

/// The text of an answer, empty where it holds none.
pub open spec fn text_in(a: AnswerView) -> Seq<char> {
    match a {
        AnswerView::Text(s) => s,
        _ => seq![],
    }
}

/// The names in an answer, none where it holds none.
pub open spec fn names_in(a: AnswerView) -> Seq<Seq<char>> {
    match a {
        AnswerView::Names(v) => v,
        _ => seq![],
    }
}

} // verus!
