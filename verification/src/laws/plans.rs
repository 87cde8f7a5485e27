//! What the plan of a move takes care of, and what it warns of.
use vstd::prelude::*;

use crate::laws::moves::follows_line;
use crate::moves::{
    between_modules, crate_path, declares, expected_parent, file_rewrites, insertion,
    like_declaration, line_rewrite, module_plan, relative_hits, relative_warnings, removal,
    rewritten, segments, src_dir, under, without_pub, without_qualifier, EditView, Workspace,
};
use crate::order::{arranged_contains, named, value_of};
use crate::paths::plain;
use crate::text::{
    at, back_from_bounds, concat_contains, count_from, ends, find, find_from_facts, gather,
    gather_contains, in_class, lines_of, occurs, span_from, span_from_bounds, starts, trimmed,
    trimmed_end, trimmed_start, white, Class,
};

verus! {

/// A move between modules rewrites every line of every file that refers to the module.
pub proof fn every_reference_is_followed(
    ws: Workspace,
    from: Seq<char>,
    to: Seq<char>,
    k: int,
    i: int,
)
    requires
        between_modules(from, to),
        0 <= k < ws.files@.len(),
        0 <= i < lines_of(ws.files@[k].1@).len(),
        rewritten(lines_of(ws.files@[k].1@)[i], crate_path(from), crate_path(to)) is Some,
    ensures
        exists|e: EditView| #[trigger]
            module_plan(ws, from, to).edits.contains(e) && follows_line(
                ws,
                crate_path(from),
                crate_path(to),
                k,
                i,
                e,
            ),
{
    let prior = crate_path(from);
    let new = crate_path(to);
    let f = segments(from)->0;
    let t = segments(to)->0;
    let dir = src_dir(from);
    let out = removal(ws, dir, f.drop_last(), f.last());
    let in_ = insertion(ws, dir, t);
    let all = file_rewrites(ws.files@, prior, new);
    let n = ws.files@.len() as int;
    let ls = lines_of(ws.files@[k].1@);
    let one = line_rewrite(ws.files@[k].0, ls, prior, new);
    let e = one(i)[0];
    assert(one(i).contains(e));
    gather_contains(ls.len() as int, one, e);
    assert(all(k).contains(e));
    gather_contains(n, all, e);
    concat_contains(out.0 + in_.0, gather(n, all), e);
    arranged_contains(out.0 + in_.0 + gather(n, all), e);
    assert(follows_line(ws, prior, new, k, i, e));
    assert(module_plan(ws, from, to).edits.contains(e));
}

/// A move that is none between modules, or that touches the root of a crate, changes no line, and a
/// warning says so.
pub proof fn refused_moves_change_nothing(ws: Workspace, from: Seq<char>, to: Seq<char>)
    requires
        segments(from) is None || segments(to) is None || segments(from)->0.len() == 0 || segments(
            to,
        )->0.len() == 0,
    ensures
        module_plan(ws, from, to).edits.len() == 0,
        module_plan(ws, from, to).warnings.len() == 1,
{
}

// ── warnings ───────────────────────────────────────────────────────────────────────────

proof fn counted_is_there(s: Seq<char>, p: Seq<char>)
    requires
        p.len() > 0,
    ensures
        count_from(s, p, 0) > 0 <==> occurs(s, p),
{
    find_from_facts(s, p, 0);
    match crate::text::find_from(s, p, 0) {
        Some(k) => {
            assert(at(s, p, k));
        },
        None => {
            if occurs(s, p) {
                let i = choose|i: int| at(s, p, i);
                assert(!at(s, p, i));
            }
        },
    }
}

/// Whether a text refers to a module by a relative path.
pub open spec fn refers_relatively(text: Seq<char>, name: Seq<char>) -> bool {
    occurs(text, "super::"@ + name) || occurs(text, "self::"@ + name)
}

proof fn hits_are(files: Seq<(Seq<char>, String)>, name: Seq<char>, n: int)
    requires
        0 <= n <= files.len(),
    ensures
        relative_hits(files, name, n) >= 0,
        relative_hits(files, name, n) > 0 <==> exists|k: int|
            0 <= k < n && refers_relatively((#[trigger] files[k]).1@, name),
    decreases n,
{
    if n > 0 {
        hits_are(files, name, n - 1);
        reveal_strlit("super::");
        reveal_strlit("self::");
        let text = files[n - 1].1@;
        counted_is_there(text, "super::"@ + name);
        counted_is_there(text, "self::"@ + name);
        if refers_relatively(text, name) {
            assert(refers_relatively(files[n - 1].1@, name));
        }
        if exists|k: int| 0 <= k < n - 1 && refers_relatively((#[trigger] files[k]).1@, name) {
            let k = choose|k: int| 0 <= k < n - 1 && refers_relatively((#[trigger] files[k]).1@, name);
            assert(refers_relatively(files[k].1@, name));
        }
    }
}

/// A warning is given where a file refers to the moved module by a relative path, and one where the
/// moved file uses relative paths itself; and no warning about relative paths is given otherwise.
pub proof fn relative_paths_are_warned_of(ws: Workspace, from: Seq<char>, name: Seq<char>)
    ensures
        ({
            let others = exists|k: int|
                0 <= k < ws.files@.len() && refers_relatively((#[trigger] ws.files@[k]).1@, name);
            let own = value_of(ws.files@, plain(from)) is Some && (occurs(
                value_of(ws.files@, plain(from))->0@,
                "super::"@,
            ) || occurs(value_of(ws.files@, plain(from))->0@, "self::"@));
            let warnings = relative_warnings(ws, from, name);
            &&& others && own ==> warnings.len() == 2
            &&& (others && !own) || (!others && own) ==> warnings.len() == 1
            &&& !others && !own ==> warnings.len() == 0
        }),
{
    hits_are(ws.files@, name, ws.files@.len() as int);
}

// ── declarations ───────────────────────────────────────────────────────────────────────

/// The children of a module are declared in its file: for the root of a crate `lib.rs`, or else
/// `main.rs`; for another module the file of its name beside its directory, or else `mod.rs` in it.
/// The first of the two that is there counts, and none where neither is.
pub proof fn modules_declare_their_children(ws: Workspace, dir: Seq<char>, segs: Seq<Seq<char>>)
    ensures
        ({
            let n = segs.len() as int;
            let first = if n == 0 {
                dir + "/lib.rs"@
            } else {
                under(dir, segs, n - 1) + "/"@ + segs[n - 1] + ".rs"@
            };
            let second = if n == 0 {
                dir + "/main.rs"@
            } else {
                under(dir, segs, n) + "/mod.rs"@
            };
            &&& named(ws.files@, plain(first)) ==> ws.declaring(dir, segs) == Some(first)
            &&& !named(ws.files@, plain(first)) && named(ws.files@, plain(second)) ==> ws.declaring(
                dir,
                segs,
            ) == Some(second)
            &&& !named(ws.files@, plain(first)) && !named(ws.files@, plain(second)) ==> ws.declaring(
                dir,
                segs,
            ) is None
            &&& expected_parent(dir, segs) == first
        }),
{
    reveal_strlit("/");
    reveal_strlit("lib.rs");
    reveal_strlit("main.rs");
    reveal_strlit("/lib.rs");
    reveal_strlit("/main.rs");
    assert(dir + "/"@ + "lib.rs"@ =~= dir + "/lib.rs"@);
    assert(dir + "/"@ + "main.rs"@ =~= dir + "/main.rs"@);
}

/// The path below a directory is the directory and the segments, with a slash before each.
pub proof fn paths_go_down(dir: Seq<char>, segs: Seq<Seq<char>>, n: int)
    requires
        0 < n <= segs.len(),
    ensures
        under(dir, segs, 0) == dir,
        under(dir, segs, n) == under(dir, segs, n - 1) + seq!['/'] + segs[n - 1],
{
    reveal_strlit("/");
    assert("/"@ =~= seq!['/']);
}

proof fn untouched(s: Seq<char>)
    requires
        s.len() > 0,
        !white(s[0]),
        !white(s.last()),
    ensures
        trimmed(s) == s,
        trimmed_start(s) == s,
{
    span_from_bounds(s, Class::White, 0);
    if span_from(s, Class::White, 0) > 0 {
        assert(in_class(Class::White, s[0]));
    }
    assert(s.skip(0) =~= s);
    back_from_bounds(s, Class::White, s.len() as int);
    let e = crate::text::back_from(s, Class::White, s.len() as int);
    if e < s.len() {
        assert(in_class(Class::White, s[s.len() - 1]));
    }
    assert(s.take(s.len() as int) =~= s);
}

proof fn one_blank(s: Seq<char>)
    requires
        s.len() > 1,
        s[0] == ' ',
        !white(s[1]),
    ensures
        trimmed_start(s) == s.skip(1),
{
    span_from_bounds(s, Class::White, 0);
    let w = span_from(s, Class::White, 0);
    if w == 0 {
        assert(!in_class(Class::White, s[w]));
    } else if w > 1 {
        assert(in_class(Class::White, s[1]));
    }
}

proof fn bare_declaration(name: Seq<char>)
    requires
        name.len() > 0,
        !white(name[0]),
    ensures
        ({
            let t = seq!['m', 'o', 'd', ' '] + name + seq![';'];
            &&& without_qualifier(t) == t
            &&& without_pub(t) == t
            &&& crate::text::behind(t, "mod "@) == Some(name + seq![';'])
            &&& trimmed(name + seq![';']) == name + ";"@
        }),
{
    let t = seq!['m', 'o', 'd', ' '] + name + seq![';'];
    reveal_strlit("mod ");
    reveal_strlit("pub");
    reveal_strlit("(");
    reveal_strlit(";");
    assert(t[0] == 'm');
    if starts(t, "pub"@) {
        assert(t.subrange(0, 3)[0] == t[0]);
    }
    if starts(t, "("@) {
        assert(t.subrange(0, 1)[0] == t[0]);
    }
    assert(t.subrange(0, 4) =~= "mod "@);
    assert(t.skip(4) =~= name + seq![';']);
    let r = name + seq![';'];
    assert(r[0] == name[0]);
    assert(r.last() == ';');
    untouched(r);
    assert(name + ";"@ =~= r);
}

/// A line declares a module where it reads, but for whitespace around it, `mod`, the name and a
/// semicolon; also behind `pub`, and behind `pub` with a qualifier in brackets.
pub proof fn declarations_are_recognised(line: Seq<char>, name: Seq<char>, q: Seq<char>)
    requires
        name.len() > 0,
        !white(name[0]),
        forall|j: int| 0 <= j < q.len() ==> #[trigger] q[j] != ')',
        ({
            let d = seq!['m', 'o', 'd', ' '] + name + seq![';'];
            ||| trimmed(line) == d
            ||| trimmed(line) == seq!['p', 'u', 'b', ' '] + d
            ||| trimmed(line) == seq!['p', 'u', 'b', '('] + q + (seq![')', ' '] + d)
        }),
    ensures
        declares(line, name),
{
    let d = seq!['m', 'o', 'd', ' '] + name + seq![';'];
    let t = trimmed(line);
    bare_declaration(name);
    reveal_strlit("pub");
    reveal_strlit("(");
    reveal_strlit(")");
    assert(d[0] == 'm');
    if t == d {
    } else if t == seq!['p', 'u', 'b', ' '] + d {
        assert(t.subrange(0, 3) =~= "pub"@);
        let r = t.skip(3);
        assert(r[0] == ' ' && r[1] == d[0]);
        one_blank(r);
        assert(r.skip(1) =~= d);
    } else {
        assert(t == seq!['p', 'u', 'b', '('] + q + (seq![')', ' '] + d));
        assert(t.subrange(0, 3) =~= "pub"@);
        let r = t.skip(3);
        assert(r[0] == '(');
        span_from_bounds(r, Class::White, 0);
        if span_from(r, Class::White, 0) > 0 {
            assert(in_class(Class::White, r[0]));
        }
        assert(r.skip(0) =~= r);
        assert(without_pub(t) == r);
        assert(r.subrange(0, 1) =~= "("@);
        let k = 1 + q.len() as int;
        assert(r[k] == ')');
        assert(r.subrange(k, k + 1) =~= ")"@);
        assert(at(r, ")"@, k));
        find_from_facts(r, ")"@, 0);
        let i = find(r, ")"@)->0;
        assert(r.subrange(i, i + 1)[0] == r[i]);
        if i < k {
            if i > 0 {
                assert(r[i] == q[i - 1]);
            }
        } else if k < i {
            assert(!at(r, ")"@, k));
        }
        let u = r.skip(k + 1);
        assert(u[0] == ' ' && u[1] == d[0]);
        one_blank(u);
        assert(u.skip(1) =~= d);
    }
}

/// A line looks like a declaration where it begins, behind whitespace, with `mod `, `pub mod ` or
/// `pub(`, and ends, before whitespace, with a semicolon.
pub proof fn lines_like_declarations(line: Seq<char>)
    ensures
        like_declaration(line) <==> (at(trimmed_start(line), seq!['m', 'o', 'd', ' '], 0) || at(
            trimmed_start(line),
            seq!['p', 'u', 'b', ' ', 'm', 'o', 'd', ' '],
            0,
        ) || at(trimmed_start(line), seq!['p', 'u', 'b', '('], 0)) && trimmed_end(line).len() > 0
            && trimmed_end(line).last() == ';',
{
    reveal_strlit("mod ");
    reveal_strlit("pub mod ");
    reveal_strlit("pub(");
    reveal_strlit(";");
    assert("mod "@ =~= seq!['m', 'o', 'd', ' ']);
    assert("pub mod "@ =~= seq!['p', 'u', 'b', ' ', 'm', 'o', 'd', ' ']);
    assert("pub("@ =~= seq!['p', 'u', 'b', '(']);
    let e = trimmed_end(line);
    let n = e.len() as int;
    if n > 0 {
        assert(e.subrange(n - 1, n)[0] == e[n - 1]);
        if e.last() == ';' {
            assert(e.subrange(n - 1, n) =~= ";"@);
        }
    }
}

} // verus!
