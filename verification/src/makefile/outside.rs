//! The functions that need something from outside: files, the shell, messages.

use vstd::prelude::*;
use crate::error;
use crate::error::{Error, ErrorView, Loc, LocView};
use crate::order;
use crate::order::sort_words;
use crate::paths;
use crate::paths::{absolute, absolute_path};
use crate::search;
use crate::search::{find_last, replace};
use crate::text;
use crate::text::{
    append,
    append_str,
    chars_of,
    from,
    is_text,
    join_chars,
    split_words,
    string_of,
    upto,
    Dup,
    Words,
};
use crate::world;
use crate::world::{Answer, AnswerView, Query, QueryView, Stop, Told, Transcript};
use super::functions;
use super::functions::{argument, Function};

verus! {

// ── Bytes ───────────────────────────────────────────────────────────────────

/// The UTF-8 bytes of a character, each as the character of its number.
pub open spec fn bytes_of(c: char) -> Seq<char> {
    let n = c as int;
    if n < 0x80 {
        seq![c]
    } else if n < 0x800 {
        seq![(0xC0 + n / 64) as char, (0x80 + n % 64) as char]
    } else if n < 0x10000 {
        seq![(0xE0 + n / 4096) as char, (0x80 + n / 64 % 64) as char, (0x80 + n % 64) as char]
    } else {
        seq![
            (0xF0 + n / 262144) as char,
            (0x80 + n / 4096 % 64) as char,
            (0x80 + n / 64 % 64) as char,
            (0x80 + n % 64) as char,
        ]
    }
}

fn byte_char(n: u32) -> (r: char)
    requires
        n < 256,
    ensures
        r as int == n,
{
    (n as u8) as char
}

/// Appends the bytes of a character.
fn append_bytes(out: &mut Vec<char>, c: char)
    ensures
        final(out)@ == old(out)@ + bytes_of(c),
{
    let n: u32 = c as u32;
    if n < 0x80 {
        out.push(c);
    } else if n < 0x800 {
        out.push(byte_char(0xC0 + n / 64));
        out.push(byte_char(0x80 + n % 64));
    } else if n < 0x10000 {
        out.push(byte_char(0xE0 + n / 4096));
        out.push(byte_char(0x80 + n / 64 % 64));
        out.push(byte_char(0x80 + n % 64));
    } else {
        out.push(byte_char(0xF0 + n / 262144));
        out.push(byte_char(0x80 + n / 4096 % 64));
        out.push(byte_char(0x80 + n / 64 % 64));
        out.push(byte_char(0x80 + n % 64));
    }
    proof {
        assert(out@ =~= old(out)@ + bytes_of(c));
    }
}

/// The bytes of a text from position `i` on.
pub open spec fn all_bytes(s: Seq<char>, i: int) -> Seq<char>
    decreases s.len() - i,
{
    if i < 0 || i >= s.len() {
        seq![]
    } else {
        bytes_of(s[i]) + all_bytes(s, i + 1)
    }
}

fn to_bytes(s: &[char]) -> (r: Vec<char>)
    ensures
        r@ == all_bytes(s@, 0),
{
    let mut out: Vec<char> = Vec::new();
    let mut i: usize = 0;
    proof {
        assert(out@ + all_bytes(s@, 0) =~= all_bytes(s@, 0));
    }
    while i < s.len()
        invariant
            i <= s@.len(),
            all_bytes(s@, 0) == out@ + all_bytes(s@, i as int),
        decreases s.len() - i,
    {
        let ghost before = out@;
        append_bytes(&mut out, s[i]);
        proof {
            assert(out@ + all_bytes(s@, i + 1) =~= before + all_bytes(s@, i as int));
        }
        i = i + 1;
    }
    proof {
        assert(out@ + all_bytes(s@, i as int) =~= out@);
    }
    out
}

// ── Wildcards ───────────────────────────────────────────────────────────────

/// Whether a pattern stands for a name: `?` for any one byte, `*` for any number
/// of them.
pub open spec fn glob(p: Seq<char>, n: Seq<char>) -> bool
    decreases p.len(), n.len() + 2,
{
    if p.len() == 0 {
        n.len() == 0
    } else if p[0] == '*' {
        glob_from(p, n, 0)
    } else if n.len() == 0 {
        false
    } else if p[0] == '?' {
        glob(p.skip(1), n.skip(1))
    } else {
        p[0] == n[0] && glob(p.skip(1), n.skip(1))
    }
}

/// Whether the pattern behind a `*` stands for the rest of the name from `i` or
/// a later position on.
pub open spec fn glob_from(p: Seq<char>, n: Seq<char>, i: int) -> bool
    decreases p.len(), n.len() - i + 1,
{
    if p.len() == 0 || i < 0 || i > n.len() {
        false
    } else {
        glob(p.skip(1), n.skip(i)) || glob_from(p, n, i + 1)
    }
}

/// A `*` stands for any number of bytes, and for none.
pub proof fn lemma_glob_star(p: Seq<char>, n: Seq<char>)
    requires
        p.len() > 0,
        p[0] == '*',
    ensures
        glob(p, n) == exists|i: int| 0 <= i <= n.len() && glob(p.skip(1), #[trigger] n.skip(i)),
        p.len() == 1 ==> glob(p, n),
{
    lemma_glob_from(p, n, 0);
    if p.len() == 1 {
        assert(p.skip(1).len() == 0);
        assert(n.skip(n.len() as int).len() == 0);
        assert(glob(p.skip(1), n.skip(n.len() as int)));
    }
}

proof fn lemma_glob_from(p: Seq<char>, n: Seq<char>, i: int)
    requires
        p.len() > 0,
        0 <= i,
    ensures
        glob_from(p, n, i) == exists|j: int|
            i <= j <= n.len() && glob(p.skip(1), #[trigger] n.skip(j)),
    decreases n.len() - i + 1,
{
    if i <= n.len() {
        lemma_glob_from(p, n, i + 1);
        if glob(p.skip(1), n.skip(i)) {
            assert(glob_from(p, n, i));
        }
    }
}

fn glob_match(p: &[char], n: &[char]) -> (r: bool)
    ensures
        r == glob(p@, n@),
    decreases p@.len(),
{
    if p.len() == 0 {
        return n.len() == 0;
    }
    if p[0] == '*' {
        let mut i: usize = 0;
        while i < n.len()
            invariant
                0 < p@.len(),
                p@[0] == '*',
                i <= n@.len(),
                glob_from(p@, n@, 0) == glob_from(p@, n@, i as int),
            decreases n.len() - i,
        {
            if glob_match(from(p, 1), from(n, i)) {
                assert(glob_from(p@, n@, i as int));
                return true;
            }
            i = i + 1;
        }
        let last = glob_match(from(p, 1), from(n, i));
        proof {
            assert(!glob_from(p@, n@, n@.len() as int + 1));
        }
        return last;
    }
    if n.len() == 0 {
        return false;
    }
    if p[0] == '?' || p[0] == n[0] {
        glob_match(from(p, 1), from(n, 1))
    } else {
        false
    }
}

/// The directory in which a wildcard pattern looks.
pub open spec fn glob_dir(p: Seq<char>) -> Seq<char> {
    match p.index_of_last('/') {
        None => "."@,
        Some(i) => p.take(i),
    }
}

/// The part of a wildcard pattern that names have to match.
pub open spec fn glob_part(p: Seq<char>) -> Seq<char> {
    match p.index_of_last('/') {
        None => p,
        Some(i) => p.skip(i + 1),
    }
}

/// A name found in a directory, as it is given back.
pub open spec fn glob_path(dir: Seq<char>, name: Seq<char>) -> Seq<char> {
    if dir == "."@ {
        name
    } else {
        dir + "/"@ + name
    }
}

/// The paths that a wildcard pattern stands for, given the names in its
/// directory: those that match, in order.
pub open spec fn glob_names(p: Seq<char>, names: Seq<Seq<char>>) -> Seq<Seq<char>> {
    order::sorted(found_names(p, names, names.len() as int))
}

/// The paths of those among the first `n` names that match.
pub open spec fn found_names(p: Seq<char>, names: Seq<Seq<char>>, n: int) -> Seq<Seq<char>>
    decreases n,
{
    if n <= 0 {
        seq![]
    } else {
        let before = found_names(p, names, n - 1);
        if glob(all_bytes(glob_part(p), 0), all_bytes(names[n - 1], 0)) {
            before.push(glob_path(glob_dir(p), names[n - 1]))
        } else {
            before
        }
    }
}

fn matching(p: &[char], names: &[String]) -> (r: Vec<Vec<char>>)
    ensures
        text::views(r@) == glob_names(p@, text::views(names@)),
{
    broadcast use text::group_views;

    let dir;
    let part;
    match find_last(p, '/') {
        None => {
            dir = chars_of(".");
            part = to_bytes(p);
        },
        Some(i) => {
            dir = vstd::slice::slice_to_vec(upto(p, i));
            part = to_bytes(from(p, i + 1));
        },
    }
    let mut out: Vec<Vec<char>> = Vec::new();
    let mut i: usize = 0;
    while i < names.len()
        invariant
            i <= names@.len(),
            dir@ == glob_dir(p@),
            part@ == all_bytes(glob_part(p@), 0),
            text::views(out@) == found_names(p@, text::views(names@), i as int),
        decreases names.len() - i,
    {
        let name = chars_of(names[i].as_str());
        let bytes = to_bytes(name.as_slice());
        if glob_match(part.as_slice(), bytes.as_slice()) {
            if is_text(dir.as_slice(), ".") {
                out.push(name);
            } else {
                let mut full = dir.dup();
                append_str(&mut full, "/");
                append(&mut full, name.as_slice());
                out.push(full);
            }
        }
        i = i + 1;
    }
    sort_words(out.as_slice())
}

/// The paths that the patterns from position `i` on stand for.
pub open spec fn globs(
    patterns: Seq<Seq<char>>,
    i: int,
    log: Seq<AnswerView>,
    k: nat,
) -> Told<Seq<Seq<char>>>
    decreases patterns.len() - i,
{
    if i < 0 || i >= patterns.len() {
        Ok((seq![], k))
    } else {
        match world::asked(log, k, QueryView::ListDir(glob_dir(patterns[i]))) {
            Err(s) => Err(s),
            Ok(a) => world::after(
                glob_names(patterns[i], world::names_in(a.0)),
                globs(patterns, i + 1, log, a.1),
            ),
        }
    }
}

fn dir_of_glob(p: &[char]) -> (r: String)
    ensures
        r@ == glob_dir(p@),
{
    match find_last(p, '/') {
        None => string_of(chars_of(".").as_slice()),
        Some(i) => string_of(upto(p, i)),
    }
}

fn extend(out: &mut Vec<Vec<char>>, more: Vec<Vec<char>>)
    ensures
        text::views(final(out)@) == text::views(old(out)@) + text::views(more@),
{
    let ghost added = text::views(more@);
    let mut more = more;
    out.append(&mut more);
    proof {
        assert(text::views(out@) =~= text::views(old(out)@) + added);
    }
}

fn fn_wildcard(s: &[char], t: &mut Transcript) -> (r: Result<Words, Stop>)
    ensures
        world::tells(
            r,
            *old(t),
            *final(t),
            globs(text::words(s@), 0, old(t).log(), old(t).at()),
        ),
{
    broadcast use text::group_views;

    let patterns = split_words(s);
    let mut out: Vec<Vec<char>> = Vec::new();
    let mut i: usize = 0;
    proof {
        world::lemma_after_nothing(globs(text::words(s@), 0, t.log(), t.at()));
    }
    while i < patterns.len()
        invariant
            i <= patterns@.len(),
            text::views(patterns@) == text::words(s@),
            t.log() == old(t).log(),
            globs(text::words(s@), 0, old(t).log(), old(t).at()) == world::after(
                text::views(out@),
                globs(text::words(s@), i as int, t.log(), t.at()),
            ),
        decreases patterns.len() - i,
    {
        assert(text::words(s@)[i as int] == patterns@[i as int]@);
        let a = t.ask(Query::ListDir(dir_of_glob(patterns[i].as_slice())))?;
        proof {
            world::lemma_after_after(
                text::views(out@),
                glob_names(patterns@[i as int]@, world::names_in(a@)),
                globs(text::words(s@), i + 1, t.log(), t.at()),
            );
        }
        match a {
            Answer::Names(names) => {
                extend(&mut out, matching(patterns[i].as_slice(), names.as_slice()));
            },
            _ => {
                proof {
                    assert(found_names(patterns@[i as int]@, seq![], 0) =~= seq![]);
                    assert(text::views(out@) + Seq::<Seq<char>>::empty() =~= text::views(out@));
                }
            },
        }
        i = i + 1;
    }
    proof {
        assert(text::views(out@) + Seq::<Seq<char>>::empty() =~= text::views(out@));
    }
    Ok(Words(out))
}

// ── Paths ───────────────────────────────────────────────────────────────────

/// The real paths of the words from position `i` on that have one.
pub open spec fn real_paths(
    words: Seq<Seq<char>>,
    i: int,
    log: Seq<AnswerView>,
    k: nat,
) -> Told<Seq<Seq<char>>>
    decreases words.len() - i,
{
    if i < 0 || i >= words.len() {
        Ok((seq![], k))
    } else {
        match world::asked(log, k, QueryView::RealPath(words[i])) {
            Err(s) => Err(s),
            Ok(a) => world::after(
                match a.0 {
                    AnswerView::Text(p) => seq![p],
                    _ => seq![],
                },
                real_paths(words, i + 1, log, a.1),
            ),
        }
    }
}

fn fn_realpath(s: &[char], t: &mut Transcript) -> (r: Result<Words, Stop>)
    ensures
        world::tells(
            r,
            *old(t),
            *final(t),
            real_paths(text::words(s@), 0, old(t).log(), old(t).at()),
        ),
{
    broadcast use text::group_views;

    let words = split_words(s);
    let mut out: Vec<Vec<char>> = Vec::new();
    let mut i: usize = 0;
    proof {
        world::lemma_after_nothing(real_paths(text::words(s@), 0, t.log(), t.at()));
    }
    while i < words.len()
        invariant
            i <= words@.len(),
            text::views(words@) == text::words(s@),
            t.log() == old(t).log(),
            real_paths(text::words(s@), 0, old(t).log(), old(t).at()) == world::after(
                text::views(out@),
                real_paths(text::words(s@), i as int, t.log(), t.at()),
            ),
        decreases words.len() - i,
    {
        assert(text::words(s@)[i as int] == words@[i as int]@);
        let a = t.ask(Query::RealPath(string_of(words[i].as_slice())))?;
        let ghost before = text::views(out@);
        proof {
            world::lemma_after_after(
                before,
                match a@ {
                    AnswerView::Text(p) => seq![p],
                    _ => seq![],
                },
                real_paths(text::words(s@), i + 1, t.log(), t.at()),
            );
        }
        match a {
            Answer::Text(p) => {
                out.push(chars_of(p.as_str()));
                proof {
                    assert(text::views(out@) =~= before + seq![p@]);
                }
            },
            _ => {
                proof {
                    assert(before + Seq::<Seq<char>>::empty() =~= before);
                }
            },
        }
        i = i + 1;
    }
    proof {
        assert(text::views(out@) + Seq::<Seq<char>>::empty() =~= text::views(out@));
    }
    Ok(Words(out))
}

/// The paths of the words from position `i` on, from the root and without `.`
/// and `..`. For a relative path the working directory is asked for.
pub open spec fn abs_paths(
    words: Seq<Seq<char>>,
    i: int,
    log: Seq<AnswerView>,
    k: nat,
) -> Told<Seq<Seq<char>>>
    decreases words.len() - i,
{
    if i < 0 || i >= words.len() {
        Ok((seq![], k))
    } else if paths::is_absolute(words[i]) {
        world::after(
            seq![paths::abspath(seq![], words[i])],
            abs_paths(words, i + 1, log, k),
        )
    } else {
        match world::asked(log, k, QueryView::WorkDir) {
            Err(s) => Err(s),
            Ok(a) => world::after(
                seq![paths::abspath(world::text_in(a.0), words[i])],
                abs_paths(words, i + 1, log, a.1),
            ),
        }
    }
}

fn fn_abspath(s: &[char], t: &mut Transcript) -> (r: Result<Words, Stop>)
    ensures
        world::tells(
            r,
            *old(t),
            *final(t),
            abs_paths(text::words(s@), 0, old(t).log(), old(t).at()),
        ),
{
    broadcast use text::group_views;

    let words = split_words(s);
    let mut out: Vec<Vec<char>> = Vec::new();
    let mut i: usize = 0;
    proof {
        world::lemma_after_nothing(abs_paths(text::words(s@), 0, t.log(), t.at()));
    }
    while i < words.len()
        invariant
            i <= words@.len(),
            text::views(words@) == text::words(s@),
            t.log() == old(t).log(),
            abs_paths(text::words(s@), 0, old(t).log(), old(t).at()) == world::after(
                text::views(out@),
                abs_paths(text::words(s@), i as int, t.log(), t.at()),
            ),
        decreases words.len() - i,
    {
        assert(text::words(s@)[i as int] == words@[i as int]@);
        let w = words[i].as_slice();
        let cwd: Vec<char>;
        if absolute(w) {
            cwd = Vec::new();
        } else {
            cwd = match t.ask(Query::WorkDir)? {
                Answer::Text(p) => chars_of(p.as_str()),
                _ => Vec::new(),
            };
        }
        let ghost before = text::views(out@);
        let path = absolute_path(cwd.as_slice(), w);
        out.push(path);
        proof {
            world::lemma_after_after(
                before,
                seq![path@],
                abs_paths(text::words(s@), i + 1, t.log(), t.at()),
            );
            assert(text::views(out@) =~= before + seq![path@]);
        }
        i = i + 1;
    }
    proof {
        assert(text::views(out@) + Seq::<Seq<char>>::empty() =~= text::views(out@));
    }
    Ok(Words(out))
}

// ── The shell ───────────────────────────────────────────────────────────────

/// Where the newlines at the end of the first `j` characters begin.
pub open spec fn drop_newlines(s: Seq<char>, j: int) -> int
    decreases j,
{
    if 0 < j <= s.len() && s[j - 1] == '\n' {
        drop_newlines(s, j - 1)
    } else {
        j
    }
}

/// The output of a command as `$(shell …)` gives it: without the newlines at its
/// end, and with a space for each other one.
pub open spec fn shell_text(s: Seq<char>) -> Seq<char> {
    search::replaced(s.take(drop_newlines(s, s.len() as int)), 0, "\n"@, " "@)
}

fn flatten_output(s: &[char]) -> (r: Vec<char>)
    ensures
        r@ == shell_text(s@),
{
    let mut j: usize = s.len();
    while j > 0 && s[j - 1] == '\n'
        invariant
            j <= s@.len(),
            drop_newlines(s@, s@.len() as int) == drop_newlines(s@, j as int),
        decreases j,
    {
        j = j - 1;
    }
    replace(upto(s, j), chars_of("\n").as_slice(), chars_of(" ").as_slice())
}

/// What a function gives that needs something from outside.
pub open spec fn outside(
    f: Function,
    args: Seq<Seq<char>>,
    loc: LocView,
    log: Seq<AnswerView>,
    k: nat,
) -> Told<Seq<char>> {
    let a0 = functions::arg(args, 0);
    match f {
        Function::Wildcard => spaced_told(globs(text::words(a0), 0, log, k)),
        Function::Realpath => spaced_told(real_paths(text::words(a0), 0, log, k)),
        Function::Abspath => spaced_told(abs_paths(text::words(a0), 0, log, k)),
        Function::Shell => match world::asked(log, k, QueryView::Shell(a0)) {
            Err(s) => Err(s),
            Ok(a) => Ok((shell_text(world::text_in(a.0)), a.1)),
        },
        Function::Error => world::failed(ErrorView::FatalAt(loc, a0), k),
        Function::Warning => match world::asked(
            log,
            k,
            QueryView::Warn(error::loc_text(loc) + ": "@ + a0),
        ) {
            Err(s) => Err(s),
            Ok(a) => Ok((seq![], a.1)),
        },
        Function::Info => match world::asked(log, k, QueryView::Print(a0)) {
            Err(s) => Err(s),
            Ok(a) => Ok((seq![], a.1)),
        },
        _ => Ok((seq![], k)),
    }
}

/// Words, run together with spaces.
pub open spec fn spaced_told(r: Told<Seq<Seq<char>>>) -> Told<Seq<char>> {
    match r {
        Err(s) => Err(s),
        Ok(p) => Ok((functions::spaced(p.0), p.1)),
    }
}

/// Calls a function that needs something from outside.
pub fn call_outside(f: Function, args: &[Vec<char>], loc: &Loc, t: &mut Transcript) -> (r: Result<
    Vec<char>,
    Stop,
>)
    ensures
        world::tells(
            r,
            *old(t),
            *final(t),
            outside(f, text::views(args@), loc@, old(t).log(), old(t).at()),
        ),
{
    let none: Vec<char> = Vec::new();
    let a0 = argument(args, 0, &none);
    match f {
        Function::Wildcard => {
            let words = fn_wildcard(a0, t)?;
            Ok(join_chars(words.0.as_slice(), " "))
        },
        Function::Realpath => {
            let words = fn_realpath(a0, t)?;
            Ok(join_chars(words.0.as_slice(), " "))
        },
        Function::Abspath => {
            let words = fn_abspath(a0, t)?;
            Ok(join_chars(words.0.as_slice(), " "))
        },
        Function::Shell => {
            let a = t.ask(Query::Shell(string_of(a0)))?;
            let output = match a {
                Answer::Text(s) => chars_of(s.as_str()),
                _ => Vec::new(),
            };
            Ok(flatten_output(output.as_slice()))
        },
        Function::Error => Err(Stop::Failed(Error::FatalAt(loc.dup(), string_of(a0)))),
        Function::Warning => {
            let mut line = loc.chars();
            append_str(&mut line, ": ");
            append(&mut line, a0);
            let _ = t.ask(Query::Warn(string_of(line.as_slice())))?;
            Ok(Vec::new())
        },
        Function::Info => {
            let _ = t.ask(Query::Print(string_of(a0)))?;
            Ok(Vec::new())
        },
        _ => Ok(Vec::new()),
    }
}

// ── What holds of these functions ───────────────────────────────────────────

/// What stands for itself in a wildcard pattern matches that byte alone, a `?` any one byte,
/// and the empty pattern nothing but the empty name.
pub proof fn lemma_glob(c: char, d: char, p: Seq<char>, n: Seq<char>)
    ensures
        glob(seq![], seq![]),
        !glob(seq![], seq![d] + n),
        c != '*' ==> !glob(seq![c] + p, seq![]),
        c != '*' && c != '?' ==> glob(seq![c] + p, seq![d] + n) == (c == d && glob(p, n)),
        glob(seq!['?'] + p, seq![d] + n) == glob(p, n),
{
    let a = seq![c] + p;
    let b = seq![d] + n;
    let q = seq!['?'] + p;
    assert(a.skip(1) =~= p);
    assert(b.skip(1) =~= n);
    assert(q.skip(1) =~= p);
    assert(a[0] == c && b[0] == d && q[0] == '?');
}

/// ASCII text is its own bytes.
pub proof fn lemma_ascii_bytes(s: Seq<char>, i: int)
    requires
        0 <= i <= s.len(),
        forall|j: int| 0 <= j < s.len() ==> (#[trigger] s[j] as int) < 0x80,
    ensures
        all_bytes(s, i) == s.skip(i),
    decreases s.len() - i,
{
    if i < s.len() {
        lemma_ascii_bytes(s, i + 1);
        assert((s[i] as int) < 0x80);
        assert(seq![s[i]] + s.skip(i + 1) =~= s.skip(i));
    } else {
        assert(s.skip(i) =~= seq![]);
    }
}

/// A wildcard pattern looks in the directory before its last `/`, for names that match what
/// stands behind it; what is found is given with the directory.
pub proof fn lemma_glob_place(d: Seq<char>, q: Seq<char>, name: Seq<char>)
    requires
        !q.contains('/'),
    ensures
        glob_dir(d + seq!['/'] + q) == d,
        glob_part(d + seq!['/'] + q) == q,
        glob_dir(q) == seq!['.'],
        glob_part(q) == q,
        d != seq!['.'] ==> glob_path(d, name) == d + seq!['/'] + name,
        glob_path(seq!['.'], name) == name,
{
    reveal_strlit(".");
    reveal_strlit("/");
    assert("."@ =~= seq!['.']);
    assert("/"@ =~= seq!['/']);
    let p = d + seq!['/'] + q;
    p.index_of_last_ensures('/');
    q.index_of_last_ensures('/');
    let n = d.len() as int;
    assert(p[n] == '/');
    assert(p.contains('/'));
    let i = p.index_of_last('/')->Some_0;
    assert(i == n) by {
        if i > n {
            assert(q[i - n - 1] == '/');
        }
    }
    assert(p.take(n) =~= d);
    assert(p.skip(n + 1) =~= q);
}

/// `$(wildcard …)` gives exactly the names that match, in order.
pub proof fn lemma_glob_names(p: Seq<char>, names: Seq<Seq<char>>, w: Seq<char>)
    ensures
        order::ascending(glob_names(p, names)),
        glob_names(p, names).contains(w) <==> exists|i: int|
            0 <= i < names.len() && glob(
                all_bytes(glob_part(p), 0),
                all_bytes(#[trigger] names[i], 0),
            ) && w == glob_path(glob_dir(p), names[i]),
{
    let list = found_names(p, names, names.len() as int);
    order::lemma_sorted(list);
    lemma_found(p, names, names.len() as int, w);
    assert(order::sorted(list).contains(w) <==> list.contains(w));
}

proof fn lemma_found(p: Seq<char>, names: Seq<Seq<char>>, n: int, w: Seq<char>)
    requires
        0 <= n <= names.len(),
    ensures
        found_names(p, names, n).contains(w) <==> exists|i: int|
            0 <= i < n && glob(all_bytes(glob_part(p), 0), all_bytes(#[trigger] names[i], 0)) && w
                == glob_path(glob_dir(p), names[i]),
    decreases n,
{
    if n > 0 {
        lemma_found(p, names, n - 1, w);
        let before = found_names(p, names, n - 1);
        let x = glob_path(glob_dir(p), names[n - 1]);
        text::lemma_push_contains(before, x);
        if glob(all_bytes(glob_part(p), 0), all_bytes(names[n - 1], 0)) && w == x {
            assert(w == glob_path(glob_dir(p), names[n - 1]));
        }
        if exists|i: int|
            0 <= i < n - 1 && glob(all_bytes(glob_part(p), 0), all_bytes(#[trigger] names[i], 0))
                && w == glob_path(glob_dir(p), names[i]) {
            let i = choose|i: int|
                0 <= i < n - 1 && glob(
                    all_bytes(glob_part(p), 0),
                    all_bytes(#[trigger] names[i], 0),
                ) && w == glob_path(glob_dir(p), names[i]);
            assert(w == glob_path(glob_dir(p), names[i]));
        }
    }
}

/// Each pattern of `$(wildcard …)` is looked up in its turn, and what it gives comes behind
/// what those before it gave; a directory that cannot be read gives nothing.
pub proof fn lemma_globs(
    patterns: Seq<Seq<char>>,
    x: Seq<char>,
    log: Seq<AnswerView>,
    k: nat,
)
    requires
        k + patterns.len() < log.len(),
    ensures
        globs(patterns, 0, log, k) matches Ok(p) && p.1 == k + patterns.len() && globs(
            patterns.push(x),
            0,
            log,
            k,
        ) == Ok::<(Seq<Seq<char>>, nat), (world::StopView, nat)>(
            (
                match log[(k + patterns.len()) as int] {
                    AnswerView::Names(names) => p.0 + glob_names(x, names),
                    _ => p.0,
                },
                p.1 + 1,
            ),
        ),
        globs(seq![x], 0, log, log.len()) == Err::<(Seq<Seq<char>>, nat), (world::StopView, nat)>(
            (world::StopView::Ask(QueryView::ListDir(glob_dir(x))), log.len()),
        ),
{
    lemma_globs_from(patterns, x, 0, log, k);
}

proof fn lemma_globs_from(
    patterns: Seq<Seq<char>>,
    x: Seq<char>,
    i: int,
    log: Seq<AnswerView>,
    k: nat,
)
    requires
        0 <= i <= patterns.len(),
        k + patterns.len() - i < log.len(),
    ensures
        globs(patterns, i, log, k) matches Ok(p) && p.1 == k + patterns.len() - i && globs(
            patterns.push(x),
            i,
            log,
            k,
        ) == Ok::<(Seq<Seq<char>>, nat), (world::StopView, nat)>(
            (
                match log[k + patterns.len() - i] {
                    AnswerView::Names(names) => p.0 + glob_names(x, names),
                    _ => p.0,
                },
                p.1 + 1,
            ),
        ),
    decreases patterns.len() - i,
{
    let b = patterns.push(x);
    if i < patterns.len() {
        lemma_globs_from(patterns, x, i + 1, log, k + 1);
        let p = globs(patterns, i + 1, log, k + 1)->Ok_0;
        let head = glob_names(patterns[i], world::names_in(log[k as int]));
        assert(b[i] == patterns[i]);
        if let AnswerView::Names(names) = log[k + patterns.len() - i] {
            assert(head + (p.0 + glob_names(x, names)) =~= head + p.0 + glob_names(x, names));
        }
    } else {
        assert(b[i] == x);
        reveal_with_fuel(globs, 2);
        match log[k as int] {
            AnswerView::Names(names) => {
                assert(glob_names(x, names) + Seq::<Seq<char>>::empty() =~= glob_names(x, names));
                assert(Seq::<Seq<char>>::empty() + glob_names(x, names) =~= glob_names(x, names));
            },
            _ => {
                lemma_no_names(x);
                assert(Seq::<Seq<char>>::empty() + Seq::<Seq<char>>::empty() =~= seq![]);
            },
        }
    }
}

proof fn lemma_no_names(x: Seq<char>)
    ensures
        glob_names(x, seq![]) == Seq::<Seq<char>>::empty(),
{
    assert(found_names(x, seq![], 0) =~= seq![]);
    assert(order::sorted(Seq::<Seq<char>>::empty()) =~= seq![]);
}

/// `$(realpath …)` asks for each word in its turn, gives what is answered, and passes over
/// those that have no path.
pub proof fn lemma_real_paths(
    words: Seq<Seq<char>>,
    x: Seq<char>,
    log: Seq<AnswerView>,
    k: nat,
)
    requires
        k + words.len() < log.len(),
    ensures
        real_paths(words, 0, log, k) matches Ok(p) && p.1 == k + words.len() && real_paths(
            words.push(x),
            0,
            log,
            k,
        ) == Ok::<(Seq<Seq<char>>, nat), (world::StopView, nat)>(
            (
                match log[(k + words.len()) as int] {
                    AnswerView::Text(path) => p.0.push(path),
                    _ => p.0,
                },
                p.1 + 1,
            ),
        ),
        real_paths(seq![x], 0, log, log.len()) == Err::<
            (Seq<Seq<char>>, nat),
            (world::StopView, nat),
        >((world::StopView::Ask(QueryView::RealPath(x)), log.len())),
{
    lemma_real_paths_from(words, x, 0, log, k);
}

proof fn lemma_real_paths_from(
    words: Seq<Seq<char>>,
    x: Seq<char>,
    i: int,
    log: Seq<AnswerView>,
    k: nat,
)
    requires
        0 <= i <= words.len(),
        k + words.len() - i < log.len(),
    ensures
        real_paths(words, i, log, k) matches Ok(p) && p.1 == k + words.len() - i && real_paths(
            words.push(x),
            i,
            log,
            k,
        ) == Ok::<(Seq<Seq<char>>, nat), (world::StopView, nat)>(
            (
                match log[k + words.len() - i] {
                    AnswerView::Text(path) => p.0.push(path),
                    _ => p.0,
                },
                p.1 + 1,
            ),
        ),
    decreases words.len() - i,
{
    let b = words.push(x);
    if i < words.len() {
        lemma_real_paths_from(words, x, i + 1, log, k + 1);
        let p = real_paths(words, i + 1, log, k + 1)->Ok_0;
        let head: Seq<Seq<char>> = match log[k as int] {
            AnswerView::Text(path) => seq![path],
            _ => seq![],
        };
        assert(b[i] == words[i]);
        if let AnswerView::Text(path) = log[k + words.len() - i] {
            assert(head + p.0.push(path) =~= (head + p.0).push(path));
        }
    } else {
        assert(b[i] == x);
        reveal_with_fuel(real_paths, 2);
        match log[k as int] {
            AnswerView::Text(path) => {
                assert(seq![path] + Seq::<Seq<char>>::empty() =~= Seq::<Seq<char>>::empty().push(
                    path,
                ));
            },
            _ => {
                assert(Seq::<Seq<char>>::empty() + Seq::<Seq<char>>::empty() =~= seq![]);
            },
        }
    }
}

/// `$(shell …)` runs its text as it stands. Of the output the newlines at the end are taken
/// away, each other newline becomes a space, and the rest stays.
pub proof fn lemma_shell_output(
    cmd: Seq<char>,
    body: Seq<char>,
    n: nat,
    loc: LocView,
    log: Seq<AnswerView>,
    k: nat,
)
    requires
        body.len() > 0 ==> body.last() != '\n',
        k < log.len(),
        log[k as int] == AnswerView::Text(body + Seq::new(n, |i: int| '\n')),
    ensures
        outside(Function::Shell, seq![cmd], loc, log, k) matches Ok(p) && p.1 == k + 1 && p.0.len()
            == body.len() && (forall|i: int|
            0 <= i < body.len() ==> #[trigger] p.0[i] == (if body[i] == '\n' {
                ' '
            } else {
                body[i]
            })),
        outside(Function::Shell, seq![cmd], loc, log, log.len()) == Err::<
            (Seq<char>, nat),
            (world::StopView, nat),
        >((world::StopView::Ask(QueryView::Shell(cmd)), log.len())),
{
    let s = body + Seq::new(n, |i: int| '\n');
    lemma_newlines(s, body.len() as int, s.len() as int);
    assert(s.take(body.len() as int) =~= body);
    reveal_strlit("\n");
    reveal_strlit(" ");
    assert("\n"@ =~= seq!['\n']);
    assert(" "@ =~= seq![' ']);
    lemma_one_for_one(body, 0, '\n', ' ');
}

proof fn lemma_newlines(s: Seq<char>, n: int, j: int)
    requires
        0 <= n <= j <= s.len(),
        n > 0 ==> s[n - 1] != '\n',
        forall|i: int| n <= i < j ==> #[trigger] s[i] == '\n',
    ensures
        drop_newlines(s, j) == n,
    decreases j,
{
    if n < j {
        lemma_newlines(s, n, j - 1);
    }
}

proof fn lemma_one_for_one(s: Seq<char>, i: int, c: char, d: char)
    requires
        0 <= i <= s.len(),
    ensures
        search::replaced(s, i, seq![c], seq![d]).len() == s.len() - i,
        forall|j: int|
            0 <= j < s.len() - i ==> #[trigger] search::replaced(s, i, seq![c], seq![d])[j] == (
            if s[i + j] == c {
                d
            } else {
                s[i + j]
            }),
    decreases s.len() - i,
{
    if i < s.len() {
        lemma_one_for_one(s, i + 1, c, d);
        assert(s.subrange(i, i + 1) =~= seq![s[i]]);
        assert(search::stands_at(s, seq![c], i) <==> s[i] == c) by {
            if s[i] != c {
                assert(s.subrange(i, i + 1)[0] != seq![c][0]);
            }
        }
        let rest = search::replaced(s, i + 1, seq![c], seq![d]);
        let all = search::replaced(s, i, seq![c], seq![d]);
        assert forall|j: int| 0 <= j < s.len() - i implies #[trigger] all[j] == (if s[i + j] == c {
            d
        } else {
            s[i + j]
        }) by {
            if j > 0 {
                assert(all[j] == rest[j - 1]);
            }
        }
    }
}

/// `$(error …)` fails with its text, `$(warning …)` shows it with the place, and
/// `$(info …)` as it stands; the last two give nothing.
pub proof fn lemma_messages(s: Seq<char>, loc: LocView, log: Seq<AnswerView>, k: nat)
    ensures
        outside(Function::Error, seq![s], loc, log, k) == Err::<
            (Seq<char>, nat),
            (world::StopView, nat),
        >((world::StopView::Failed(ErrorView::FatalAt(loc, s)), k)),
        k < log.len() ==> outside(Function::Warning, seq![s], loc, log, k) == Ok::<
            (Seq<char>, nat),
            (world::StopView, nat),
        >((seq![], k + 1)),
        k < log.len() ==> outside(Function::Info, seq![s], loc, log, k) == Ok::<
            (Seq<char>, nat),
            (world::StopView, nat),
        >((seq![], k + 1)),
        k >= log.len() ==> outside(Function::Info, seq![s], loc, log, k) == Err::<
            (Seq<char>, nat),
            (world::StopView, nat),
        >((world::StopView::Ask(QueryView::Print(s)), k)),
        k >= log.len() ==> outside(Function::Warning, seq![s], loc, log, k) == Err::<
            (Seq<char>, nat),
            (world::StopView, nat),
        >((world::StopView::Ask(QueryView::Warn(error::loc_text(loc) + ": "@ + s)), k)),
{
}

} // verus!
