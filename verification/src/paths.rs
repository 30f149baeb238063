//! Paths as text, with `/` between their parts.

use vstd::prelude::*;
use crate::search;
use crate::search::split_at;
use crate::text;
use crate::text::{append, append_str, chars_of, is_text, join_chars, same_words, string_of, Dup};

verus! {

/// Whether a path begins at the root.
pub open spec fn is_absolute(p: Seq<char>) -> bool {
    p.len() > 0 && p[0] == '/'
}

/// Tests whether a path begins at the root.
pub fn absolute(p: &[char]) -> (r: bool)
    ensures
        r == is_absolute(p@),
{
    p.len() > 0 && p[0] == '/'
}

/// The path of `name` seen from `dir`.
pub open spec fn joined(dir: Seq<char>, name: Seq<char>) -> Seq<char> {
    if is_absolute(name) || dir.len() == 0 {
        name
    } else if dir.last() == '/' {
        dir + name
    } else {
        dir + "/"@ + name
    }
}

/// Makes the path of `name` seen from `dir`.
pub fn join_path(dir: &[char], name: &[char]) -> (r: Vec<char>)
    ensures
        r@ == joined(dir@, name@),
{
    if absolute(name) || dir.len() == 0 {
        return vstd::slice::slice_to_vec(name);
    }
    let mut out = vstd::slice::slice_to_vec(dir);
    if dir[dir.len() - 1] != '/' {
        append_str(&mut out, "/");
    }
    append(&mut out, name);
    out
}

/// The same for strings.
pub fn join_str(dir: &str, name: &str) -> (r: String)
    ensures
        r@ == joined(dir@, name@),
{
    let d = chars_of(dir);
    let n = chars_of(name);
    let out = join_path(d.as_slice(), n.as_slice());
    string_of(out.as_slice())
}

/// The first `n` of some path parts, with `.` left out and each `..` taking away
/// the part before it.
pub open spec fn resolved(parts: Seq<Seq<char>>, n: int) -> Seq<Seq<char>>
    decreases n,
{
    if n <= 0 {
        seq![]
    } else {
        let before = resolved(parts, n - 1);
        let x = parts[n - 1];
        if x.len() == 0 || x == "."@ {
            before
        } else if x == ".."@ {
            if before.len() == 0 {
                before
            } else {
                before.drop_last()
            }
        } else {
            before.push(x)
        }
    }
}

/// The path `w` without `.` and `..`, seen from `cwd` where it is relative.
pub open spec fn abspath(cwd: Seq<char>, w: Seq<char>) -> Seq<char> {
    let p = joined(cwd, w);
    let parts = search::split(p, '/');
    let body = text::join(resolved(parts, parts.len() as int), "/"@);
    if is_absolute(p) {
        "/"@ + body
    } else {
        body
    }
}

/// Computes [`abspath`].
pub fn absolute_path(cwd: &[char], w: &[char]) -> (r: Vec<char>)
    ensures
        r@ == abspath(cwd@, w@),
{
    broadcast use text::group_views;

    let p = join_path(cwd, w);
    let parts = split_at(p.as_slice(), '/');
    let mut kept: Vec<Vec<char>> = Vec::new();
    let mut i: usize = 0;
    while i < parts.len()
        invariant
            i <= parts@.len(),
            text::views(kept@) == resolved(text::views(parts@), i as int),
        decreases parts.len() - i,
    {
        let x = parts[i].as_slice();
        let ghost before = kept@;
        if x.len() == 0 || is_text(x, ".") {
        } else if is_text(x, "..") {
            if kept.len() > 0 {
                let _ = kept.pop();
                proof {
                    assert(text::views(kept@) =~= text::views(before).drop_last());
                }
            }
        } else {
            kept.push(parts[i].dup());
        }
        i = i + 1;
    }
    let body = join_chars(kept.as_slice(), "/");
    if absolute(p.as_slice()) {
        let mut out = chars_of("/");
        append(&mut out, body.as_slice());
        out
    } else {
        body
    }
}

/// The first `n` parts of a path that count when paths are compared: not the
/// empty ones, and `.` only where a relative path begins with it.
pub open spec fn key_parts(parts: Seq<Seq<char>>, n: int, root: bool) -> Seq<Seq<char>>
    decreases n,
{
    if n <= 0 {
        seq![]
    } else {
        let before = key_parts(parts, n - 1, root);
        let x = parts[n - 1];
        if x.len() == 0 || (x == "."@ && (root || n > 1)) {
            before
        } else {
            before.push(x)
        }
    }
}

/// What counts of a path when paths are compared.
pub open spec fn path_key(p: Seq<char>) -> (bool, Seq<Seq<char>>) {
    let parts = search::split(p, '/');
    (is_absolute(p), key_parts(parts, parts.len() as int, is_absolute(p)))
}

fn key_of(p: &[char]) -> (r: Vec<Vec<char>>)
    ensures
        text::views(r@) == path_key(p@).1,
{
    broadcast use text::group_views;

    let root = absolute(p);
    let parts = split_at(p, '/');
    let mut kept: Vec<Vec<char>> = Vec::new();
    let mut i: usize = 0;
    while i < parts.len()
        invariant
            i <= parts@.len(),
            text::views(kept@) == key_parts(text::views(parts@), i as int, root),
        decreases parts.len() - i,
    {
        let x = parts[i].as_slice();
        if x.len() == 0 || (is_text(x, ".") && (root || i > 0)) {
        } else {
            kept.push(parts[i].dup());
        }
        i = i + 1;
    }
    kept
}

/// Whether two texts are the same path.
pub fn same_path(a: &str, b: &str) -> (r: bool)
    ensures
        r == (path_key(a@) == path_key(b@)),
{
    let x = chars_of(a);
    let y = chars_of(b);
    absolute(x.as_slice()) == absolute(y.as_slice()) && same_words(
        key_of(x.as_slice()).as_slice(),
        key_of(y.as_slice()).as_slice(),
    )
}

// ── What holds of paths ─────────────────────────────────────────────────────

/// Whether a part of a path is a name: neither empty nor `.` nor `..`, and
/// without a `/`.
pub open spec fn is_name(x: Seq<char>) -> bool {
    x.len() > 0 && x != "."@ && x != ".."@ && !x.contains('/')
}

proof fn lemma_resolved_names(parts: Seq<Seq<char>>, n: int)
    requires
        0 <= n <= parts.len(),
        forall|i: int| 0 <= i < parts.len() ==> !(#[trigger] parts[i]).contains('/'),
    ensures
        forall|i: int| 0 <= i < resolved(parts, n).len() ==> is_name(#[trigger] resolved(parts, n)[i]),
    decreases n,
{
    if n > 0 {
        lemma_resolved_names(parts, n - 1);
        let before = resolved(parts, n - 1);
        let after = resolved(parts, n);
        let x = parts[n - 1];
        assert(!x.contains('/'));
        assert forall|i: int| 0 <= i < after.len() implies is_name(#[trigger] after[i]) by {
            if i < before.len() {
                assert(after[i] == before[i]);
            }
        }
    }
}

proof fn lemma_names_resolved(parts: Seq<Seq<char>>, n: int)
    requires
        0 <= n <= parts.len(),
        forall|i: int| 0 <= i < parts.len() ==> is_name(#[trigger] parts[i]),
    ensures
        resolved(seq![Seq::<char>::empty()] + parts, n + 1) == parts.take(n),
    decreases n,
{
    let all = seq![Seq::<char>::empty()] + parts;
    assert(all[n] == (if n == 0 {
        Seq::<char>::empty()
    } else {
        parts[n - 1]
    }));
    if n > 0 {
        lemma_names_resolved(parts, n - 1);
        assert(is_name(parts[n - 1]));
        assert(parts.take(n) =~= parts.take(n - 1).push(parts[n - 1]));
    } else {
        assert(resolved(all, 0) =~= seq![]);
        assert(resolved(all, 1) == resolved(all, 0));
        assert(parts.take(0) =~= seq![]);
    }
}

/// The absolute path of a name, seen from an absolute directory, begins at the
/// root, and as an absolute path it is its own.
pub proof fn lemma_abspath(cwd: Seq<char>, w: Seq<char>, other: Seq<char>)
    requires
        is_absolute(joined(cwd, w)),
    ensures
        is_absolute(abspath(cwd, w)),
        abspath(other, abspath(cwd, w)) == abspath(cwd, w),
{
    reveal_strlit("/");
    let p = joined(cwd, w);
    let parts = search::split(p, '/');
    search::lemma_split_parts(p, '/');
    let names = resolved(parts, parts.len() as int);
    lemma_resolved_names(parts, parts.len() as int);
    let body = text::join(names, "/"@);
    let a = "/"@ + body;
    assert("/"@ =~= seq!['/']);
    assert(a[0] == '/');
    let none = Seq::<char>::empty();
    let all = seq![none] + names;
    if names.len() > 0 {
        text::lemma_join_first(none, names, "/"@);
        assert(none + "/"@ + body =~= a);
        assert forall|i: int| 0 <= i < all.len() implies !(#[trigger] all[i]).contains('/') by {
            if i > 0 {
                assert(all[i] == names[i - 1]);
                assert(is_name(names[i - 1]));
            }
        }
        search::lemma_split_join(all, '/');
        assert(search::split(a, '/') == all);
        lemma_names_resolved(names, names.len() as int);
        assert(names.take(names.len() as int) =~= names);
    } else {
        assert(a =~= seq!['/']);
        a.index_of_first_ensures('/');
        assert(a.contains('/'));
        let rest = a.skip(1);
        assert(rest =~= none);
        rest.index_of_first_ensures('/');
        assert(search::split(rest, '/') == seq![rest]);
        assert(a.take(0) =~= none);
        assert(search::split(a, '/') =~= seq![none, none]);
        assert(resolved(seq![none, none], 0) =~= seq![]);
        assert(resolved(seq![none, none], 1) == resolved(seq![none, none], 0));
        assert(resolved(seq![none, none], 2) == resolved(seq![none, none], 1));
        assert(names =~= seq![]);
    }
}

/// A name seen from a directory stands behind it and a `/`; an absolute name, and one seen
/// from nowhere, stays as it is.
pub proof fn lemma_joined(dir: Seq<char>, name: Seq<char>)
    ensures
        name.len() > 0 && name[0] == '/' ==> joined(dir, name) == name,
        dir.len() == 0 ==> joined(dir, name) == name,
        (name.len() == 0 || name[0] != '/') && dir.len() > 0 && dir[dir.len() - 1] != '/' ==> joined(
            dir,
            name,
        ) == dir + seq!['/'] + name,
        (name.len() == 0 || name[0] != '/') && dir.len() > 0 && dir[dir.len() - 1] == '/' ==> joined(
            dir,
            name,
        ) == dir + name,
{
    reveal_strlit("/");
    assert("/"@ =~= seq!['/']);
}

/// In an absolute path a part `.` changes nothing, a part `..` takes away the part before
/// it, where there is one, and any other part is put behind the others.
pub proof fn lemma_abspath_part(w: Seq<char>, x: Seq<char>)
    requires
        w.len() > 0,
        w[0] == '/',
        !x.contains('/'),
    ensures
        ({
            let names = resolved(search::split(w, '/'), search::split(w, '/').len() as int);
            let none = Seq::<char>::empty();
            let longer = w + seq!['/'] + x;
            &&& abspath(none, w) == seq!['/'] + text::join(names, seq!['/'])
            &&& x.len() == 0 || x == seq!['.'] ==> abspath(none, longer) == abspath(none, w)
            &&& x == seq!['.', '.'] && names.len() > 0 ==> abspath(none, longer) == seq!['/']
                + text::join(names.drop_last(), seq!['/'])
            &&& x == seq!['.', '.'] && names.len() == 0 ==> abspath(none, longer) == seq!['/']
            &&& x.len() > 0 && x != seq!['.'] && x != seq!['.', '.'] ==> abspath(none, longer)
                == seq!['/'] + text::join(names.push(x), seq!['/'])
        }),
{
    reveal_strlit("/");
    reveal_strlit(".");
    reveal_strlit("..");
    assert("/"@ =~= seq!['/']);
    assert("."@ =~= seq!['.']);
    assert(".."@ =~= seq!['.', '.']);
    let parts = search::split(w, '/');
    let longer = w + seq!['/'] + x;
    let n = parts.len() as int;
    search::lemma_split_push(w, '/', x);
    let more = search::split(longer, '/');
    assert(more == parts.push(x));
    lemma_resolved_same(parts, more, n);
    assert(longer[0] == '/');
    assert(more[n] == x);
    let names = resolved(parts, n);
    if x == seq!['.', '.'] && names.len() == 0 {
        assert(resolved(more, n + 1) == names);
        assert(names =~= seq![]);
        assert(text::join(names, "/"@) =~= seq![]);
        assert("/"@ + Seq::<char>::empty() =~= seq!['/']);
    }
}

proof fn lemma_resolved_same(a: Seq<Seq<char>>, b: Seq<Seq<char>>, n: int)
    requires
        0 <= n <= a.len(),
        n <= b.len(),
        forall|i: int| 0 <= i < n ==> a[i] == b[i],
    ensures
        resolved(a, n) == resolved(b, n),
    decreases n,
{
    if n > 0 {
        lemma_resolved_same(a, b, n - 1);
    }
}

/// Two names are the same path where they have the same parts: one more part makes another
/// path, but for an empty one and `.`, which change nothing.
pub proof fn lemma_path_key(p: Seq<char>, x: Seq<char>)
    requires
        p.len() > 0,
        !x.contains('/'),
    ensures
        x.len() == 0 || x == seq!['.'] ==> path_key(p + seq!['/'] + x) == path_key(p),
        x.len() > 0 && x != seq!['.'] ==> path_key(p + seq!['/'] + x) == (
            path_key(p).0,
            path_key(p).1.push(x),
        ),
        path_key(p).0 == (p[0] == '/'),
        !p.contains('/') ==> path_key(p).1 == seq![p],
{
    reveal_strlit(".");
    assert("."@ =~= seq!['.']);
    let q = p + seq!['/'] + x;
    assert(q[0] == p[0]);
    search::lemma_split_push(p, '/', x);
    let parts = search::split(p, '/');
    let n = parts.len() as int;
    let root = p[0] == '/';
    lemma_key_parts_same(parts, parts.push(x), n, root);
    search::lemma_split_parts(p, '/');
    assert(n >= 1);
    if !p.contains('/') {
        search::lemma_split_push(p, '/', p);
        reveal_with_fuel(key_parts, 2);
        assert(p[0] != '/') by {
            assert(p.contains(p[0]));
        }
        assert(Seq::<Seq<char>>::empty().push(p) =~= seq![p]);
    }
}

proof fn lemma_key_parts_same(a: Seq<Seq<char>>, b: Seq<Seq<char>>, n: int, root: bool)
    requires
        n <= a.len(),
        n <= b.len(),
        forall|i: int| 0 <= i < n ==> a[i] == b[i],
    ensures
        key_parts(a, n, root) == key_parts(b, n, root),
    decreases n,
{
    if n > 0 {
        lemma_key_parts_same(a, b, n - 1, root);
    }
}

} // verus!
