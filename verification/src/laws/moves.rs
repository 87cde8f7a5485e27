//! What a move does to the lines that refer to the moved module.
use vstd::prelude::*;

use crate::moves::{
    between_modules, crate_path, declaration_from, declares, dominant, edited, edited_lines,
    file_rewrites, first_of, in_place, insertion, insertions, is_open, kept_line, last_declaration,
    like_declaration, line_rewrite, module_plan, new_lines, prefix_at, removal, replacement,
    rewritten, rewritten_from, rewritten_where_referred, segments, src_dir, stale_line, stale_lines,
    terms, unlines, untouched_line_stays, EditKind, EditView, StepView, Workspace,
};
use crate::order::{arranged_contains, named, value_of};
use crate::paths::{components_of, plain};
use crate::text::{
    at, behind, concat_contains, ends, gather, gather_contains, gather_same, in_class, lines_of,
    pieces, pieces_from, span_from, span_from_bounds, trimmed, Class, Piece,
};

verus! {

/// Whether a character may stand in a name: a letter or a digit of ASCII, or the underscore.
pub open spec fn name_char(c: char) -> bool {
    c == '_' || 'a' <= c <= 'z' || 'A' <= c <= 'Z' || '0' <= c <= '9'
}

/// Whether a line refers to a path at position `j`: the characters of the path stand there, and the
/// names next to it go neither on before it nor behind it.
pub open spec fn refers_at(s: Seq<char>, path: Seq<char>, j: int) -> bool {
    &&& 0 <= j
    &&& j + path.len() <= s.len()
    &&& forall|k: int| j <= k < j + path.len() ==> #[trigger] s[k] == path[k - j]
    &&& j > 0 ==> !name_char(s[j - 1])
    &&& j + path.len() < s.len() ==> !name_char(s[j + path.len()])
}

proof fn refers_is_prefix(s: Seq<char>, path: Seq<char>, j: int)
    requires
        0 <= j,
    ensures
        refers_at(s, path, j) <==> prefix_at(s, path, j),
{
    let end = j + path.len();
    if refers_at(s, path, j) {
        assert(s.subrange(j, end) =~= path);
        if j > 0 {
            assert(!in_class(Class::AsciiIdent, s[j - 1]));
        }
        if end < s.len() {
            assert(!in_class(Class::AsciiIdent, s[end]));
        }
    }
    if prefix_at(s, path, j) {
        assert forall|k: int| j <= k < end implies #[trigger] s[k] == path[k - j] by {
            assert(s.subrange(j, end)[k - j] == s[k]);
        }
        if end < s.len() && at(s, "::"@, end) {
            reveal_strlit("::");
            assert(s.subrange(end, end + 2)[0] == ':');
            assert(s[end] == ':');
        }
    }
}

/// Where the text between one reference and the next begins.
pub open spec fn behind_place(ps: Seq<int>, size: int, k: int) -> int {
    if k <= 0 {
        0
    } else {
        ps[k - 1] + size
    }
}

/// What stands before the reference at a place, with `new` in place of the reference.
pub open spec fn piece(s: Seq<char>, size: int, new: Seq<char>, ps: Seq<int>) -> spec_fn(int) -> Seq<
    char,
> {
    |k: int| s.subrange(behind_place(ps, size, k), ps[k]) + new
}

/// The first `i` characters of a line with `new` at each of the places, and everything between them
/// as it was.
#[verifier::opaque]
pub open spec fn woven(s: Seq<char>, size: int, new: Seq<char>, ps: Seq<int>, i: int) -> Seq<char> {
    gather(ps.len() as int, piece(s, size, new, ps)) + s.subrange(
        behind_place(ps, size, ps.len() as int),
        i,
    )
}

/// Whether the places are those of the references to a path among the first `i` characters: each is
/// one, no two overlap, and every reference stands at one or overlaps one that begins before it.
#[verifier::opaque]
pub open spec fn places_of(s: Seq<char>, path: Seq<char>, ps: Seq<int>, i: int) -> bool {
    &&& forall|k: int| 0 <= k < ps.len() ==> refers_at(s, path, #[trigger] ps[k])
    &&& forall|k: int| 0 <= k < ps.len() ==> #[trigger] ps[k] + path.len() <= i
    &&& forall|k: int, l: int|
        0 <= k < l < ps.len() ==> #[trigger] ps[k] + path.len() <= #[trigger] ps[l]
    &&& forall|j: int|
        0 <= j < i && #[trigger] refers_at(s, path, j) ==> exists|k: int|
            0 <= k < ps.len() && #[trigger] ps[k] <= j < ps[k] + path.len()
}

proof fn one_more_place(s: Seq<char>, prior: Seq<char>, new: Seq<char>, i: int, ps: Seq<int>)
    requires
        prior.len() > 0,
        0 <= i < s.len(),
        places_of(s, prior, ps, i),
        refers_at(s, prior, i),
    ensures
        places_of(s, prior, ps.push(i), i + prior.len()),
        woven(s, prior.len() as int, new, ps.push(i), i + prior.len()) == woven(
            s,
            prior.len() as int,
            new,
            ps,
            i,
        ) + new,
{
    reveal(woven);
    reveal(places_of);
    let size = prior.len() as int;
    let n = ps.len() as int;
    let more = ps.push(i);
    assert forall|j: int| 0 <= j < i + size && #[trigger] refers_at(s, prior, j) implies exists|k: int|
        0 <= k < more.len() && #[trigger] more[k] <= j < more[k] + size by {
        if j < i {
            let k = choose|k: int| 0 <= k < ps.len() && #[trigger] ps[k] <= j < ps[k] + size;
            assert(more[k] == ps[k]);
        } else {
            assert(more[n] == i);
        }
    }
    let f = piece(s, size, new, ps);
    let g = piece(s, size, new, more);
    assert forall|k: int| 0 <= k < n implies #[trigger] f(k) == g(k) by {
        if k > 0 {
            assert(more[k - 1] == ps[k - 1]);
        }
        assert(more[k] == ps[k]);
    }
    gather_same(n, f, g);
    if n > 0 {
        assert(more[n - 1] == ps[n - 1]);
    }
    assert(g(n) == s.subrange(behind_place(ps, size, n), i) + new);
    assert(gather(n + 1, g) == gather(n, g) + g(n));
    assert(s.subrange(i + size, i + size) =~= Seq::empty());
    assert(woven(s, size, new, more, i + size) =~= woven(s, size, new, ps, i) + new);
}

proof fn one_more_char(s: Seq<char>, prior: Seq<char>, new: Seq<char>, i: int, ps: Seq<int>)
    requires
        prior.len() > 0,
        0 <= i < s.len(),
        places_of(s, prior, ps, i),
        !refers_at(s, prior, i),
    ensures
        places_of(s, prior, ps, i + 1),
        woven(s, prior.len() as int, new, ps, i + 1) == woven(s, prior.len() as int, new, ps, i)
            + seq![s[i]],
{
    reveal(woven);
    reveal(places_of);
    let size = prior.len() as int;
    let start = behind_place(ps, size, ps.len() as int);
    if ps.len() > 0 {
        assert(ps[ps.len() - 1] + prior.len() <= i);
        assert(refers_at(s, prior, ps[ps.len() - 1]));
    }
    assert(0 <= start <= i);
    assert(s.subrange(start, i + 1) =~= s.subrange(start, i) + seq![s[i]]);
    assert(woven(s, size, new, ps, i + 1) =~= woven(s, size, new, ps, i) + seq![s[i]]);
}

proof fn woven_on(
    s: Seq<char>,
    prior: Seq<char>,
    new: Seq<char>,
    i: int,
    ps: Seq<int>,
) -> (qs: Seq<int>)
    requires
        prior.len() > 0,
        0 <= i <= s.len(),
        places_of(s, prior, ps, i),
    ensures
        places_of(s, prior, qs, s.len() as int),
        woven(s, prior.len() as int, new, ps, i) + rewritten_from(s, prior, new, i).0 == woven(
            s,
            prior.len() as int,
            new,
            qs,
            s.len() as int,
        ),
    decreases s.len() - i,
{
    let size = prior.len() as int;
    let done = woven(s, size, new, ps, i);
    if i >= s.len() {
        assert(done + rewritten_from(s, prior, new, i).0 =~= done);
        ps
    } else {
        refers_is_prefix(s, prior, i);
        if refers_at(s, prior, i) {
            one_more_place(s, prior, new, i, ps);
            let rest = rewritten_from(s, prior, new, i + size).0;
            assert(done + (new + rest) =~= done + new + rest);
            woven_on(s, prior, new, i + size, ps.push(i))
        } else {
            one_more_char(s, prior, new, i, ps);
            let rest = rewritten_from(s, prior, new, i + 1).0;
            assert(done + (seq![s[i]] + rest) =~= done + seq![s[i]] + rest);
            woven_on(s, prior, new, i + 1, ps)
        }
    }
}

/// Every reference is followed, and nothing else is touched: a line that refers to `prior` becomes
/// the line with `new` at each of its references, in place of exactly their characters, and with
/// every other character as it was; a line that does not refer to it is not rewritten.
pub proof fn rewrite_follows_every_reference(s: Seq<char>, prior: Seq<char>, new: Seq<char>)
    requires
        prior.len() > 0,
    ensures
        match rewritten(s, prior, new) {
            Some(out) => exists|ps: Seq<int>|
                ps.len() > 0 && #[trigger] places_of(s, prior, ps, s.len() as int) && out == woven(
                    s,
                    prior.len() as int,
                    new,
                    ps,
                    s.len() as int,
                ),
            None => forall|j: int| !#[trigger] refers_at(s, prior, j),
        },
{
    rewritten_where_referred(s, prior, new);
    match rewritten(s, prior, new) {
        Some(out) => {
            reveal(woven);
            reveal(places_of);
            let none = Seq::<int>::empty();
            assert(places_of(s, prior, none, 0));
            let ps = woven_on(s, prior, new, 0, none);
            assert(woven(s, prior.len() as int, new, none, 0) =~= Seq::empty());
            assert(Seq::<char>::empty() + out =~= out);
            let j = choose|j: int| 0 <= j && #[trigger] prefix_at(s, prior, j);
            refers_is_prefix(s, prior, j);
            assert(refers_at(s, prior, j));
        },
        None => {
            assert forall|j: int| !#[trigger] refers_at(s, prior, j) by {
                if refers_at(s, prior, j) {
                    refers_is_prefix(s, prior, j);
                }
            }
        },
    }
}

/// What becomes of a line, whether it refers to the path or not.
pub open spec fn followed_line(s: Seq<char>, prior: Seq<char>, new: Seq<char>) -> Seq<char> {
    match rewritten(s, prior, new) {
        Some(out) => out,
        None => s,
    }
}

/// Whether no name goes on at position `i` of a line.
spec fn free_at(s: Seq<char>, i: int) -> bool {
    (i > 0 ==> !name_char(s[i - 1])) || (i < s.len() && !name_char(s[i]))
}

proof fn referred_alike(s: Seq<char>, prior: Seq<char>, m: int, i: int)
    requires
        prior.len() > 0,
        name_char(prior[0]),
        0 <= m <= i < s.len(),
        free_at(s, m),
    ensures
        refers_at(s, prior, i) <==> refers_at(s.skip(m), prior, i - m),
{
    let t = s.skip(m);
    assert forall|k: int| m <= k < s.len() implies #[trigger] s[k] == t[k - m] by {}
    if refers_at(s, prior, i) {
        assert forall|k: int| i - m <= k < i - m + prior.len() implies #[trigger] t[k] == prior[k - (i
            - m)] by {
            assert(s[k + m] == t[k]);
        }
        if i - m > 0 {
            assert(t[i - m - 1] == s[i - 1]);
        }
        if i + prior.len() < s.len() {
            assert(t[i - m + prior.len()] == s[i + prior.len()]);
        }
    }
    if refers_at(t, prior, i - m) {
        assert forall|k: int| i <= k < i + prior.len() implies #[trigger] s[k] == prior[k - i] by {
            assert(t[k - m] == prior[k - m - (i - m)]);
        }
        assert(s[i] == prior[0]);
        if i > m {
            assert(t[i - m - 1] == s[i - 1]);
        }
        if i + prior.len() < s.len() {
            assert(t[i - m + prior.len()] == s[i + prior.len()]);
        }
    }
}

proof fn rest_alike(s: Seq<char>, prior: Seq<char>, new: Seq<char>, m: int, i: int)
    requires
        prior.len() > 0,
        name_char(prior[0]),
        0 <= m <= i,
        m < s.len(),
        free_at(s, m),
    ensures
        rewritten_from(s, prior, new, i) == rewritten_from(s.skip(m), prior, new, i - m),
    decreases s.len() - i,
{
    if i < s.len() {
        referred_alike(s, prior, m, i);
        refers_is_prefix(s, prior, i);
        refers_is_prefix(s.skip(m), prior, i - m);
        assert(s.skip(m)[i - m] == s[i]);
        if refers_at(s, prior, i) {
            rest_alike(s, prior, new, m, i + prior.len());
        } else {
            rest_alike(s, prior, new, m, i + 1);
        }
    }
}

proof fn ahead_alike(s: Seq<char>, prior: Seq<char>, new: Seq<char>, i: int, p: int)
    requires
        prior.len() > 0,
        0 <= i <= p <= s.len(),
        forall|j: int| i <= j < p ==> !#[trigger] refers_at(s, prior, j),
    ensures
        rewritten_from(s, prior, new, i).0 == s.subrange(i, p) + rewritten_from(s, prior, new, p).0,
        rewritten_from(s, prior, new, i).1 == rewritten_from(s, prior, new, p).1,
    decreases p - i,
{
    if i < p {
        refers_is_prefix(s, prior, i);
        assert(!refers_at(s, prior, i));
        ahead_alike(s, prior, new, i + 1, p);
        let rest = rewritten_from(s, prior, new, p).0;
        assert(seq![s[i]] + (s.subrange(i + 1, p) + rest) =~= s.subrange(i, p) + rest);
    } else {
        assert(s.subrange(i, p) + rewritten_from(s, prior, new, p).0 =~= rewritten_from(
            s,
            prior,
            new,
            p,
        ).0);
    }
}

/// A line is followed piece by piece: up to its first reference it stays as it is, `new` comes in
/// place of the reference, and what comes behind it is followed in the same way.
pub proof fn rewrite_goes_on(s: Seq<char>, prior: Seq<char>, new: Seq<char>, p: int)
    requires
        prior.len() > 0,
        name_char(prior[0]),
        refers_at(s, prior, p),
        forall|j: int| 0 <= j < p ==> !#[trigger] refers_at(s, prior, j),
    ensures
        rewritten(s, prior, new) == Some(
            s.take(p) + new + followed_line(s.skip(p + prior.len()), prior, new),
        ),
{
    let end = p + prior.len();
    let t = s.skip(end);
    refers_is_prefix(s, prior, p);
    ahead_alike(s, prior, new, 0, p);
    assert(s.subrange(0, p) =~= s.take(p));
    if end < s.len() {
        rest_alike(s, prior, new, end, end);
    }
    assert(rewritten_from(s, prior, new, end) == rewritten_from(t, prior, new, 0));
    assert(rewritten_from(s, prior, new, p).0 == new + rewritten_from(s, prior, new, end).0);
    let rest = rewritten_from(t, prior, new, 0);
    rewritten_where_referred(t, prior, new);
    if !rest.1 {
        assert forall|j: int| 0 <= j < t.len() implies !#[trigger] refers_at(t, prior, j) by {
            refers_is_prefix(t, prior, j);
        }
        ahead_alike(t, prior, new, 0, t.len() as int);
        assert(t.subrange(0, t.len() as int) + Seq::<char>::empty() =~= t);
    }
    assert(s.take(p) + (new + rest.0) =~= s.take(p) + new + rest.0);
}

// ── modules ────────────────────────────────────────────────────────────────────────────

proof fn first_stands(v: Seq<Seq<char>>, x: Seq<char>, i: int)
    requires
        0 <= i,
    ensures
        match first_of(v, x, i) {
            Some(k) => i <= k < v.len() && v[k] == x && forall|j: int|
                i <= j < k ==> #[trigger] v[j] != x,
            None => forall|j: int| i <= j < v.len() ==> #[trigger] v[j] != x,
        },
    decreases v.len() - i,
{
    if i < v.len() && v[i] != x {
        first_stands(v, x, i + 1);
    }
}

/// The module path of a file is what comes between the first `src` of its path and its name, and the
/// name without `.rs` behind it unless the file stands for its directory; a file whose path has no
/// `src`, or whose name does not end with `.rs`, has none.
pub proof fn modules_follow_src(path: Seq<char>, i: int, stem: Seq<char>)
    ensures
        ({
            let c = components_of(path);
            0 <= i < c.len() - 1 && c[i] == "src"@ && (forall|j: int|
                0 <= j < i ==> #[trigger] c[j] != "src"@) && c.last() == stem + ".rs"@
                ==> segments(path) == Some(
                if stem == "lib"@ || stem == "main"@ || stem == "mod"@ {
                    c.subrange(i + 1, c.len() - 1)
                } else {
                    c.subrange(i + 1, c.len() - 1).push(stem)
                },
            )
        }),
        (forall|j: int|
            0 <= j < components_of(path).len() ==> #[trigger] components_of(path)[j] != "src"@)
            ==> segments(path) is None,
        segments(path) is Some ==> components_of(path).len() > 1 && exists|s: Seq<char>|
            components_of(path).last() == #[trigger] (s + ".rs"@),
{
    let c = components_of(path);
    let rs = ".rs"@;
    first_stands(c, "src"@, 0);
    match first_of(c, "src"@, 0) {
        Some(k) => {
            let s = c.skip(k + 1);
            if s.len() > 0 {
                assert(s.last() == c.last());
                assert(s.drop_last() =~= c.subrange(k + 1, c.len() - 1));
                let last = c.last();
                if last == stem + rs {
                    let m = last.len() - rs.len();
                    assert(last.subrange(m, m + rs.len()) =~= rs);
                    assert(last.take(m) =~= stem);
                }
                if ends(last, rs) {
                    let m = last.len() - rs.len();
                    let t = last.take(m);
                    assert(t + rs =~= last) by {
                        assert(last.subrange(m, m + rs.len()) == rs);
                        assert forall|j: int| 0 <= j < last.len() implies (t + rs)[j] == last[j] by {
                            if j >= m {
                                assert(last.subrange(m, m + rs.len())[j - m] == last[j]);
                            }
                        }
                    }
                }
            }
            if 0 <= i < c.len() - 1 && c[i] == "src"@ && (forall|j: int|
                0 <= j < i ==> #[trigger] c[j] != "src"@) {
                if i < k {
                    assert(c[i] != "src"@);
                }
                if k < i {
                    assert(c[k] != "src"@);
                }
            }
        },
        None => {
            if 0 <= i < c.len() && c[i] == "src"@ {
                assert(c[i] != "src"@);
            }
        },
    }
}

/// Whether line `l` is the first of several that declares a module.
pub open spec fn first_declares(ls: Seq<Seq<char>>, name: Seq<char>, l: int) -> bool {
    &&& 0 <= l < ls.len()
    &&& declares(ls[l], name)
    &&& forall|m: int| 0 <= m < l ==> !declares(#[trigger] ls[m], name)
}

/// Whether line `n`, counted from 1, is the last of several that looks like a declaration, or 0
/// where there is none.
pub open spec fn last_declares(ls: Seq<Seq<char>>, n: int) -> bool {
    &&& 0 <= n <= ls.len()
    &&& n > 0 ==> like_declaration(ls[n - 1])
    &&& forall|m: int| n <= m < ls.len() ==> !like_declaration(#[trigger] ls[m])
}

proof fn declaration_is_first(ls: Seq<Seq<char>>, name: Seq<char>, i: int)
    requires
        0 <= i,
    ensures
        match declaration_from(ls, name, i) {
            Some(k) => i <= k < ls.len() && declares(ls[k], name) && forall|m: int|
                i <= m < k ==> !declares(#[trigger] ls[m], name),
            None => forall|m: int| i <= m < ls.len() ==> !declares(#[trigger] ls[m], name),
        },
    decreases ls.len() - i,
{
    if i < ls.len() && !declares(ls[i], name) {
        declaration_is_first(ls, name, i + 1);
    }
}

proof fn last_is_last(ls: Seq<Seq<char>>, n: int)
    requires
        0 <= n <= ls.len(),
        forall|m: int| n <= m < ls.len() ==> !like_declaration(#[trigger] ls[m]),
    ensures
        last_declares(ls, last_declaration(ls, n)),
    decreases n,
{
    if n > 0 && !like_declaration(ls[n - 1]) {
        last_is_last(ls, n - 1);
    }
}

/// Whether an edit takes the declaration of a module out of a file: its first line that declares it.
pub open spec fn takes_out(ws: Workspace, file: Seq<char>, name: Seq<char>, e: EditView) -> bool {
    &&& e.kind == EditKind::Delete
    &&& e.path == file
    &&& value_of(ws.files@, plain(file)) is Some
    &&& exists|l: int| #[trigger]
        first_declares(lines_of(value_of(ws.files@, plain(file))->0@), name, l) && e.line == (l + 1) as usize
}

/// Whether an edit puts the declaration of a module into a file: behind the last line that looks
/// like one.
pub open spec fn puts_in(ws: Workspace, file: Seq<char>, name: Seq<char>, e: EditView) -> bool {
    &&& e.kind == EditKind::Insert
    &&& e.path == file
    &&& e.after == "mod "@ + name + ";"@
    &&& value_of(ws.files@, plain(file)) is Some
    &&& exists|n: int| #[trigger]
        last_declares(lines_of(value_of(ws.files@, plain(file))->0@), n) && e.line == n as usize
}

/// Whether an edit follows the references on a line of a file.
pub open spec fn follows_line(
    ws: Workspace,
    prior: Seq<char>,
    new: Seq<char>,
    k: int,
    i: int,
    e: EditView,
) -> bool {
    &&& 0 <= k < ws.files@.len()
    &&& 0 <= i < lines_of(ws.files@[k].1@).len()
    &&& e.kind == EditKind::Replace
    &&& e.path == ws.files@[k].0
    &&& e.line == (i + 1) as usize
    &&& e.before == lines_of(ws.files@[k].1@)[i]
    &&& rewritten(e.before, prior, new) == Some(e.after)
}

proof fn rewrites_are(ws: Workspace, prior: Seq<char>, new: Seq<char>, e: EditView)
    requires
        gather(ws.files@.len() as int, file_rewrites(ws.files@, prior, new)).contains(e),
    ensures
        exists|k: int, i: int| #[trigger] follows_line(ws, prior, new, k, i, e),
{
    let all = file_rewrites(ws.files@, prior, new);
    gather_contains(ws.files@.len() as int, all, e);
    let k = choose|k: int| 0 <= k < ws.files@.len() && (#[trigger] all(k)).contains(e);
    let ls = lines_of(ws.files@[k].1@);
    let one = line_rewrite(ws.files@[k].0, ls, prior, new);
    gather_contains(ls.len() as int, one, e);
    let i = choose|i: int| 0 <= i < ls.len() && (#[trigger] one(i)).contains(e);
    let found = one(i);
    let m = choose|m: int| 0 <= m < found.len() && found[m] == e;
    assert(follows_line(ws, prior, new, k, i, e));
}

/// A move from module to module takes the declaration out of the file that declared the module, puts
/// one into the file that is to declare it, follows the references on every line, and does nothing
/// else; where there is no declaration to take out, or no file to put one into, a warning says so.
pub proof fn moves_take_the_declaration_along(
    ws: Workspace,
    from: Seq<char>,
    to: Seq<char>,
    e: EditView,
)
    requires
        between_modules(from, to),
    ensures
        ({
            let plan = module_plan(ws, from, to);
            let f = segments(from)->0;
            let t = segments(to)->0;
            let old_home = ws.declaring(src_dir(from), f.drop_last());
            let new_home = ws.declaring(src_dir(from), t.drop_last());
            &&& plan.edits.contains(e) ==> {
                ||| old_home is Some && takes_out(ws, old_home->0, f.last(), e)
                ||| new_home is Some && puts_in(ws, new_home->0, t.last(), e)
                ||| exists|k: int, i: int| #[trigger]
                    follows_line(ws, crate_path(from), crate_path(to), k, i, e)
            }
            &&& old_home is Some && (exists|l: int| #[trigger]
                first_declares(
                    lines_of(value_of(ws.files@, plain(old_home->0))->0@),
                    f.last(),
                    l,
                )) ==> exists|x: EditView| #[trigger]
                plan.edits.contains(x) && takes_out(ws, old_home->0, f.last(), x)
            &&& new_home is Some ==> exists|x: EditView| #[trigger]
                plan.edits.contains(x) && puts_in(ws, new_home->0, t.last(), x)
            &&& old_home is None || new_home is None ==> plan.warnings.len() > 0
            &&& old_home is Some && (forall|l: int| !#[trigger]
                first_declares(
                    lines_of(value_of(ws.files@, plain(old_home->0))->0@),
                    f.last(),
                    l,
                )) ==> plan.warnings.len() > 0
        }),
{
    let plan = module_plan(ws, from, to);
    let f = segments(from)->0;
    let t = segments(to)->0;
    let dir = src_dir(from);
    let out = removal(ws, dir, f.drop_last(), f.last());
    let in_ = insertion(ws, dir, t);
    let prior = crate_path(from);
    let new = crate_path(to);
    let rewrites = gather(ws.files@.len() as int, file_rewrites(ws.files@, prior, new));
    let all = out.0 + in_.0 + rewrites;
    let old_home = ws.declaring(dir, f.drop_last());
    let new_home = ws.declaring(dir, t.drop_last());
    if old_home is Some {
        let file = old_home->0;
        assert(named(ws.files@, plain(file)));
        let ls = lines_of(value_of(ws.files@, plain(file))->0@);
        declaration_is_first(ls, f.last(), 0);
        match declaration_from(ls, f.last(), 0) {
            Some(l) => {
                assert(first_declares(ls, f.last(), l));
                let x = out.0[0];
                assert(out.0.contains(x));
                assert(takes_out(ws, file, f.last(), x));
                concat_contains(out.0 + in_.0, rewrites, x);
                concat_contains(out.0, in_.0, x);
                arranged_contains(all, x);
                assert(plan.edits.contains(x));
            },
            None => {
                if exists|l: int| #[trigger] first_declares(ls, f.last(), l) {
                    let l = choose|l: int| #[trigger] first_declares(ls, f.last(), l);
                    assert(!declares(ls[l], f.last()));
                }
                assert(out.1.len() > 0);
            },
        }
    } else {
        assert(out.1.len() > 0);
    }
    if new_home is Some {
        let file = new_home->0;
        assert(named(ws.files@, plain(file)));
        let ls = lines_of(value_of(ws.files@, plain(file))->0@);
        last_is_last(ls, ls.len() as int);
        let x = in_.0[0];
        assert(in_.0.contains(x));
        assert(puts_in(ws, file, t.last(), x));
        concat_contains(out.0 + in_.0, rewrites, x);
        concat_contains(out.0, in_.0, x);
        arranged_contains(all, x);
        assert(plan.edits.contains(x));
    } else {
        assert(in_.1.len() > 0);
    }
    if plan.edits.contains(e) {
        arranged_contains(all, e);
        concat_contains(out.0 + in_.0, rewrites, e);
        concat_contains(out.0, in_.0, e);
        if out.0.contains(e) {
            let m = choose|m: int| 0 <= m < out.0.len() && out.0[m] == e;
        } else if in_.0.contains(e) {
            let m = choose|m: int| 0 <= m < in_.0.len() && in_.0[m] == e;
        } else {
            rewrites_are(ws, prior, new, e);
        }
    }
}

/// A declaration of a module begins, behind its visibility, with `mod` and the name of the module,
/// and a semicolon comes right behind it or behind one space.
pub proof fn declarations_name_the_module(line: Seq<char>, name: Seq<char>)
    requires
        declares(line, name),
    ensures
        exists|t: Seq<char>, rest: Seq<char>| #[trigger]
            declared_behind(line, t, rest) && (trimmed(rest) == name + seq![';'] || trimmed(rest)
                == name + seq![' ', ';']),
{
    reveal_strlit(";");
    reveal_strlit(" ;");
    assert(";"@ =~= seq![';']);
    assert(" ;"@ =~= seq![' ', ';']);
    let t = crate::moves::without_qualifier(crate::moves::without_pub(trimmed(line)));
    let rest = behind(t, "mod "@)->0;
    assert(t =~= "mod "@ + rest) by {
        assert(t.subrange(0, "mod "@.len() as int) == "mod "@);
        assert forall|j: int| 0 <= j < t.len() implies t[j] == ("mod "@ + rest)[j] by {
            if j < "mod "@.len() {
                assert(t.subrange(0, "mod "@.len() as int)[j] == t[j]);
            }
        }
    }
    assert(declared_behind(line, t, rest));
}

/// Whether a line, without the visibility that it begins with, is `mod` and this rest.
pub open spec fn declared_behind(line: Seq<char>, t: Seq<char>, rest: Seq<char>) -> bool {
    t == crate::moves::without_qualifier(crate::moves::without_pub(trimmed(line))) && t == "mod "@
        + rest
}

// ── edits ──────────────────────────────────────────────────────────────────────────────

proof fn one_place_upto(ls: Seq<Piece>, term: Seq<char>, ss: Seq<StepView>, l: int, n: int)
    requires
        0 <= l <= n <= ls.len(),
        forall|i: int| 0 <= i < ss.len() ==> (#[trigger] ss[i]).line == l,
    ensures
        gather(n + 1, in_place(ls, term, ss)) == ls.take(if l > 0 {
            l - 1
        } else {
            0
        }) + (in_place(ls, term, ss))(l) + ls.subrange(l, n),
    decreases n,
{
    let f = in_place(ls, term, ss);
    let base = if l > 0 {
        l - 1
    } else {
        0
    };
    if n > l {
        one_place_upto(ls, term, ss, l, n - 1);
        untouched_line_stays(ls, term, ss, n);
        assert(gather(n + 1, f) == gather(n, f) + f(n));
        assert(ls.subrange(l, n) =~= ls.subrange(l, n - 1) + seq![ls[n - 1]]);
        assert(gather(n + 1, f) =~= ls.take(base) + f(l) + ls.subrange(l, n));
    } else {
        nothing_before(ls, term, ss, l);
        assert(gather(n + 1, f) == gather(n, f) + f(n));
        assert(gather(n + 1, f) =~= ls.take(base) + f(l) + ls.subrange(l, n));
    }
}

proof fn nothing_before(ls: Seq<Piece>, term: Seq<char>, ss: Seq<StepView>, l: int)
    requires
        0 <= l <= ls.len(),
        forall|i: int| 0 <= i < ss.len() ==> (#[trigger] ss[i]).line >= l,
    ensures
        gather(l, in_place(ls, term, ss)) == ls.take(if l > 0 {
            l - 1
        } else {
            0
        }),
    decreases l,
{
    let f = in_place(ls, term, ss);
    if l > 1 {
        nothing_before(ls, term, ss, l - 1);
        untouched_line_stays(ls, term, ss, l - 1);
        assert(gather(l, f) =~= ls.take(l - 1));
    } else if l == 1 {
        no_insertions(ss, 0, ss.len() as int);
        assert(f(0) =~= Seq::empty());
        reveal_with_fuel(gather, 2);
        assert(gather(1, f) =~= ls.take(0));
    } else {
        assert(gather(0, f) =~= ls.take(0));
    }
}

proof fn no_insertions(ss: Seq<StepView>, line: int, n: int)
    requires
        0 <= n <= ss.len(),
        forall|i: int| 0 <= i < ss.len() ==> (#[trigger] ss[i]).line != line,
    ensures
        insertions(ss, line, n).len() == 0,
    decreases n,
{
    if n > 0 {
        no_insertions(ss, line, n - 1);
        assert(ss[n - 1].line != line);
    }
}

proof fn one_step(ls: Seq<Piece>, term: Seq<char>, s: StepView)
    requires
        s.line <= ls.len(),
        s.kind != EditKind::Insert ==> s.line > 0,
    ensures
        edited_lines(ls, term, seq![s]) == match s.kind {
            EditKind::Replace => ls.update(
                s.line - 1,
                Piece { text: s.after, term: ls[s.line - 1].term },
            ),
            EditKind::Delete => ls.remove(s.line - 1),
            EditKind::Insert => if is_open(ls, s.line as int) {
                ls.update(
                    s.line - 1,
                    Piece { text: ls[s.line - 1].text, term },
                ).push(Piece { text: s.after, term: Seq::empty() })
            } else {
                ls.insert(s.line as int, Piece { text: s.after, term })
            },
        },
{
    let ss = seq![s];
    let l = s.line as int;
    let n = ls.len() as int;
    one_place_upto(ls, term, ss, l, n);
    let f = in_place(ls, term, ss);
    assert(ls.subrange(l, n) =~= ls.skip(l));
    reveal_with_fuel(insertions, 2);
    reveal_with_fuel(replacement, 2);
    assert(ss[0] == s);
    let goal = edited_lines(ls, term, ss);
    match s.kind {
        EditKind::Replace => {
            assert(insertions(ss, l, 1).len() == 0);
            assert(!crate::moves::deleted(ss, l));
            let p = Piece { text: s.after, term: ls[l - 1].term };
            assert(f(l) =~= seq![p]);
            assert(goal =~= ls.update(l - 1, p));
        },
        EditKind::Delete => {
            assert(insertions(ss, l, 1).len() == 0);
            assert(crate::moves::deleted(ss, l));
            assert(f(l) =~= Seq::empty());
            assert(goal =~= ls.remove(l - 1));
        },
        EditKind::Insert => {
            assert(insertions(ss, l, 1) =~= seq![s.after]);
            assert(!crate::moves::deleted(ss, l));
            if l > 0 {
                let kept = kept_line(ls, term, ss, l);
                let more = new_lines(ls, term, ss, l);
                assert(more.len() == 1);
                assert(kept.len() == 1);
                assert(f(l) =~= seq![kept[0], more[0]]);
                if is_open(ls, l) {
                    assert(more[0].term =~= Seq::empty());
                    assert(goal =~= ls.update(l - 1, Piece { text: ls[l - 1].text, term }).push(
                        Piece { text: s.after, term: Seq::empty() },
                    ));
                } else {
                    assert(kept[0] == ls[l - 1]);
                    assert(goal =~= ls.insert(l, Piece { text: s.after, term }));
                }
            } else {
                let more = new_lines(ls, term, ss, 0);
                assert(f(0) =~= more);
                assert(more =~= seq![Piece { text: s.after, term }]);
                assert(goal =~= ls.insert(0, Piece { text: s.after, term }));
            }
        },
    }
}

/// An edit changes its line and no other: one that replaces a line puts its text in place of that of
/// the line and keeps how the line ends, one that deletes a line takes it out, and one that inserts
/// puts its text as a line of its own behind its line, ended as most lines are; behind a last line
/// that nothing ends, the new line is the one that nothing ends.
pub proof fn an_edit_changes_its_line(text: Seq<char>, s: StepView)
    requires
        s.line <= pieces(text).len(),
        s.kind != EditKind::Insert ==> s.line > 0,
    ensures
        edited(text, seq![s]) == Ok::<Seq<char>, Seq<usize>>(
            unlines(
                match s.kind {
                    EditKind::Replace => pieces(text).update(
                        s.line - 1,
                        Piece { text: s.after, term: pieces(text)[s.line - 1].term },
                    ),
                    EditKind::Delete => pieces(text).remove(s.line - 1),
                    EditKind::Insert => if s.line > 0 && s.line == pieces(text).len() && pieces(
                        text,
                    ).last().term.len() == 0 {
                        pieces(text).update(
                            s.line - 1,
                            Piece { text: pieces(text).last().text, term: dominant(pieces(text)) },
                        ).push(Piece { text: s.after, term: Seq::empty() })
                    } else {
                        pieces(text).insert(
                            s.line as int,
                            Piece { text: s.after, term: dominant(pieces(text)) },
                        )
                    },
                },
            ),
        ),
{
    let ls = pieces(text);
    one_step(ls, dominant(ls), s);
    let ss = seq![s];
    let f = stale_line(ss, ls.len() as int);
    assert(ss[0] == s);
    reveal_with_fuel(gather, 2);
    assert(f(0) =~= Seq::empty());
    assert(stale_lines(ss, ls.len() as int) =~= Seq::empty());
}

proof fn terms_are(ls: Seq<Piece>, term: Seq<char>, n: int)
    requires
        0 <= n <= ls.len(),
    ensures
        terms(ls, term, n) == ls.take(n).filter(|p: Piece| p.term == term).len(),
    decreases n,
{
    reveal(Seq::filter);
    if n > 0 {
        terms_are(ls, term, n - 1);
        assert(ls.take(n).drop_last() =~= ls.take(n - 1));
        assert(ls.take(n).last() == ls[n - 1]);
    }
}

/// New lines end as most lines do: with a carriage return and a line feed where more lines end so
/// than with a line feed alone, and with a line feed otherwise.
pub proof fn new_lines_end_as_most_do(ls: Seq<Piece>)
    ensures
        dominant(ls) == (if ls.filter(|p: Piece| p.term == seq!['\r', '\n']).len() > ls.filter(
            |p: Piece| p.term == seq!['\n'],
        ).len() {
            seq!['\r', '\n']
        } else {
            seq!['\n']
        }),
{
    reveal_strlit("\r\n");
    reveal_strlit("\n");
    assert("\r\n"@ =~= seq!['\r', '\n']);
    assert("\n"@ =~= seq!['\n']);
    let n = ls.len() as int;
    terms_are(ls, "\r\n"@, n);
    terms_are(ls, "\n"@, n);
    assert(ls.take(n) =~= ls);
}

proof fn pieces_are_lines(s: Seq<char>, i: int, k: int)
    requires
        0 <= i <= s.len(),
        0 <= k < pieces_from(s, i).len(),
    ensures
        ({
            let p = pieces_from(s, i)[k];
            &&& forall|j: int| 0 <= j < p.text.len() ==> #[trigger] p.text[j] != '\n'
            &&& p.term == seq!['\n'] || p.term == seq!['\r', '\n'] || (p.term.len() == 0 && k
                == pieces_from(s, i).len() - 1 && p.text.len() > 0)
            &&& p.term == seq!['\n'] && p.text.len() > 0 ==> p.text.last() != '\r'
        }),
    decreases s.len() - i,
{
    let j = span_from(s, Class::Not('\n'), i);
    span_from_bounds(s, Class::Not('\n'), i);
    assert forall|m: int| i <= m < j implies #[trigger] s[m] != '\n' by {
        assert(in_class(Class::Not('\n'), s[m]));
    }
    if i < s.len() && j < s.len() && k > 0 {
        assert(pieces_from(s, i)[k] == pieces_from(s, j + 1)[k - 1]);
        pieces_are_lines(s, j + 1, k - 1);
    }
}

/// The lines of a text hold no line feed; each ends with a line feed, perhaps behind a carriage
/// return, but for a last one that nothing ends. Put one after the other they are the text.
pub proof fn lines_end_at_line_feeds(text: Seq<char>, k: int)
    requires
        0 <= k < pieces(text).len(),
    ensures
        forall|j: int| 0 <= j < pieces(text)[k].text.len() ==> #[trigger] pieces(text)[k].text[j] != '\n',
        pieces(text)[k].term == seq!['\n'] || pieces(text)[k].term == seq!['\r', '\n'] || (
        pieces(text)[k].term.len() == 0 && k == pieces(text).len() - 1),
        pieces(text)[k].term == seq!['\n'] && pieces(text)[k].text.len() > 0 ==> pieces(
            text,
        )[k].text.last() != '\r',
        unlines(pieces(text)) == text,
{
    pieces_are_lines(text, 0, k);
    crate::moves::lines_make_text(text);
}

} // verus!
