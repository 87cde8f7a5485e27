//! Where files belong, and by what.
use vstd::prelude::*;

use crate::laws::functions::{leading_name, name_at};
use crate::laws::orders::{names_come_by_characters, text_before};
use crate::order::{
    arranged_contains, arranged_facts, before, before_from, canonical, canonical_facts,
    falling_rank, in_order, links, name_rank, name_rank_injective, row_of, row_unique, value_of,
    Ranked,
};
use crate::place::{
    coupled_dirs, dir_at, dir_module, first_naming, import_dir, import_dirs, imports, imports_from,
    line_imports, module_dir, modules_of, own_module, ranking, times, user_dir, TallyView,
};
use crate::scip::{belongs_in, dir_of, lists_misplaced, misplaced, CodeGraph, Misplacement};
use crate::text::{
    at, concat_contains, find_from_facts, gather, gather_contains, lines_of, parts, rfind,
    rfind_from_facts,
};

verus! {

// ── ranking ────────────────────────────────────────────────────────────────────────────

/// How often a text stands in a list.
pub open spec fn occurrences(dirs: Seq<Seq<char>>, d: Seq<char>) -> nat {
    dirs.filter(|x: Seq<char>| x == d).len()
}

proof fn times_is(dirs: Seq<Seq<char>>, d: Seq<char>, n: int)
    requires
        0 <= n <= dirs.len(),
    ensures
        times(dirs, d, n) == occurrences(dirs.take(n), d),
        times(dirs, d, n) <= n,
    decreases n,
{
    reveal(Seq::filter);
    if n > 0 {
        times_is(dirs, d, n - 1);
        let t = dirs.take(n);
        assert(t.drop_last() =~= dirs.take(n - 1));
        assert(t.last() == dirs[n - 1]);
    }
}

proof fn behind_same(p: Seq<i64>, a: Seq<i64>, b: Seq<i64>, i: int)
    requires
        0 <= i <= a.len(),
        i <= b.len(),
    ensures
        before_from(p + a, p + b, p.len() + i) == before_from(a, b, i),
    decreases a.len() - i,
{
    if i < a.len() && i < b.len() {
        assert((p + a)[p.len() + i] == a[i]);
        assert((p + b)[p.len() + i] == b[i]);
        behind_same(p, a, b, i + 1);
    }
}

proof fn same_beginning(p: Seq<i64>, a: Seq<i64>, b: Seq<i64>)
    requires
        p.len() == 2,
    ensures
        before(p + a, p + b) == before(a, b),
{
    behind_same(p, a, b, 0);
    assert((p + a)[0] == p[0] && (p + b)[0] == p[0]);
    assert((p + a)[1] == p[1] && (p + b)[1] == p[1]);
    reveal_with_fuel(before_from, 3);
}

proof fn ranked_rows(dirs: Seq<Seq<char>>, t: TallyView)
    ensures
        ranking(dirs).contains(t) <==> dirs.contains(t.dir) && t.count == occurrences(dirs, t.dir),
{
    let n = dirs.len() as int;
    assert(dirs.take(n) =~= dirs);
    times_is(dirs, t.dir, n);
    canonical_facts(dirs);
    let c = canonical(dirs);
    let raw = c.map_values(|d: Seq<char>| TallyView { dir: d, count: times(dirs, d, n) });
    arranged_contains(raw, t);
    if raw.contains(t) {
        let k = choose|k: int| 0 <= k < raw.len() && raw[k] == t;
        assert(raw[k] == TallyView { dir: c[k], count: times(dirs, c[k], n) });
        assert(c.contains(c[k]));
    }
    if dirs.contains(t.dir) && t.count == occurrences(dirs, t.dir) {
        let q = choose|q: int| 0 <= q < c.len() && #[trigger] c[q].rank() == t.dir.rank();
        name_rank_injective(false, c[q], t.dir);
        assert(raw[q] == t);
        assert(raw.contains(t));
    }
}

/// A ranking lists each directory with how often it stands among those given, and nothing else:
/// those that stand there more often come first, and among equals those whose names come first.
pub proof fn rankings_count(dirs: Seq<Seq<char>>, t: TallyView, i: int, j: int)
    requires
        dirs.len() <= usize::MAX,
    ensures
        ranking(dirs).contains(t) <==> dirs.contains(t.dir) && t.count == occurrences(dirs, t.dir),
        0 <= i < j < ranking(dirs).len() ==> {
            let (a, b) = (ranking(dirs)[i], ranking(dirs)[j]);
            a.count > b.count || (a.count == b.count && !text_before(b.dir, a.dir))
        },
{
    ranked_rows(dirs, t);
    if 0 <= i < j < ranking(dirs).len() {
        let n = dirs.len() as int;
        let raw = canonical(dirs).map_values(
            |d: Seq<char>| TallyView { dir: d, count: times(dirs, d, n) },
        );
        arranged_facts(raw);
        let (a, b) = (ranking(dirs)[i], ranking(dirs)[j]);
        assert(!before(b.rank(), a.rank()));
        assert(ranking(dirs).contains(a) && ranking(dirs).contains(b));
        ranked_rows(dirs, a);
        ranked_rows(dirs, b);
        assert(dirs.take(n) =~= dirs);
        times_is(dirs, a.dir, n);
        times_is(dirs, b.dir, n);
        if a.count < b.count {
            crate::order::number_rank_orders(b.count as int, a.count as int);
            let x = falling_rank(b.count as int);
            let y = falling_rank(a.count as int);
            assert(before(x, y));
            let u = b.rank();
            let v = a.rank();
            assert(u[0] == x[0] && u[1] == x[1] && v[0] == y[0] && v[1] == y[1]);
            reveal_with_fuel(before_from, 3);
        } else if a.count == b.count {
            same_beginning(
                falling_rank(a.count as int),
                name_rank(false, b.dir),
                name_rank(false, a.dir),
            );
            names_come_by_characters(b.dir, a.dir);
        }
    }
}

// ── what a file is coupled to ──────────────────────────────────────────────────────────

/// The directory of a path ends at its last slash; a path without one is at the top.
pub proof fn directories_end_at_the_last_slash(path: Seq<char>)
    ensures
        (forall|j: int| 0 <= j < path.len() ==> #[trigger] path[j] != '/') ==> dir_of(path)
            == Seq::<char>::empty(),
        forall|k: int|
            0 <= k < path.len() && #[trigger] path[k] == '/' && (forall|j: int|
                k < j < path.len() ==> #[trigger] path[j] != '/') ==> dir_of(path) == path.take(k),
{
    reveal_strlit("/");
    let n = path.len() as int;
    rfind_from_facts(path, "/"@, n - 1);
    assert forall|j: int| 0 <= j < n implies (path[j] == '/' <==> #[trigger] at(path, "/"@, j)) by {
        assert(path.subrange(j, j + 1)[0] == path[j]);
        if path[j] == '/' {
            assert(path.subrange(j, j + 1) =~= "/"@);
        }
    }
    assert forall|k: int|
        0 <= k < path.len() && #[trigger] path[k] == '/' && (forall|j: int|
            k < j < path.len() ==> #[trigger] path[j] != '/') implies dir_of(path) == path.take(k) by {
        assert(at(path, "/"@, k));
        let i = rfind(path, "/"@)->0;
        if i < k {
            assert(!at(path, "/"@, k));
        } else if k < i {
            assert(path[i] != '/');
        }
    }
}

/// Whether one of two files depends on the other.
pub open spec fn neighbours(g: CodeGraph, a: Seq<char>, b: Seq<char>) -> bool {
    links(g.file_deps@, a, b) || links(g.file_deps@, b, a)
}

/// A file is coupled to the directories of the files that it depends on and of the files that depend
/// on it, and to no other.
pub proof fn files_are_coupled_by_dependency(g: CodeGraph, file: Seq<char>, d: Seq<char>)
    requires
        in_order(false, g.file_deps@),
    ensures
        coupled_dirs(g, file).contains(d) <==> exists|other: Seq<char>|
            #[trigger] neighbours(g, file, other) && d == dir_of(other),
{
    let rows = g.file_deps@;
    let own = match value_of(rows, file) {
        Some(set) => gather(set@.len() as int, dir_at(set@)),
        None => seq![],
    };
    let users = user_dir(g, file);
    let n = rows.len() as int;
    concat_contains(own, gather(n, users), d);
    gather_contains(n, users, d);
    if own.contains(d) {
        let set = value_of(rows, file)->0@;
        let f = dir_at(set);
        gather_contains(set.len() as int, f, d);
        let i = choose|i: int| 0 <= i < set.len() && (#[trigger] f(i)).contains(d);
        let found = f(i);
        let k = choose|k: int| 0 <= k < found.len() && found[k] == d;
        assert(set[i].0 == set[i].0);
        assert(neighbours(g, file, set[i].0));
    }
    if gather(n, users).contains(d) {
        let i = choose|i: int| 0 <= i < n && (#[trigger] users(i)).contains(d);
        let found = users(i);
        let k = choose|k: int| 0 <= k < found.len() && found[k] == d;
        row_unique(false, rows, i);
        assert(neighbours(g, file, rows[i].0));
    }
    if exists|other: Seq<char>| #[trigger] neighbours(g, file, other) && d == dir_of(other) {
        let other = choose|other: Seq<char>| #[trigger]
            neighbours(g, file, other) && d == dir_of(other);
        if links(rows, file, other) {
            let set = value_of(rows, file)->0@;
            let f = dir_at(set);
            let i = choose|i: int| 0 <= i < set.len() && #[trigger] set[i].0 == other;
            assert(f(i)[0] == d);
            assert(f(i).contains(d));
            gather_contains(set.len() as int, f, d);
        } else {
            let i = row_of(rows, other)->0;
            assert(rows[i].0 == other);
            assert(users(i)[0] == d);
            assert(users(i).contains(d));
        }
    }
}

// ── what a text refers to ──────────────────────────────────────────────────────────────

/// Whether a line refers at position `p` to a module by an absolute path.
pub open spec fn imports_at(line: Seq<char>, m: Seq<char>, p: int) -> bool {
    at(line, seq!['c', 'r', 'a', 't', 'e', ':', ':'], p) && name_at(line, m, p + 7)
}

proof fn imports_on(line: Seq<char>, m: Seq<char>, i: int)
    requires
        0 <= i <= line.len(),
    ensures
        imports_from(line, i).contains(m) <==> exists|p: int| i <= p && #[trigger] imports_at(line, m, p),
    decreases line.len() - i,
{
    let c = seq!['c', 'r', 'a', 't', 'e', ':', ':'];
    reveal_strlit("crate::");
    assert("crate::"@ =~= c);
    find_from_facts(line, c, i);
    match crate::text::find_from(line, c, i) {
        Some(p) => {
            let q = p + 7;
            imports_on(line, m, q);
            let name = crate::text::lead(line.skip(q), crate::text::Class::Ident);
            leading_name(line, m, q);
            let here: Seq<Seq<char>> = if name.len() > 0 {
                seq![name]
            } else {
                seq![]
            };
            concat_contains(here, imports_from(line, q), m);
            if here.contains(m) {
                let k = choose|k: int| 0 <= k < here.len() && here[k] == m;
                assert(imports_at(line, m, p));
            }
            if imports_from(line, q).contains(m) {
                let r = choose|r: int| q <= r && #[trigger] imports_at(line, m, r);
                assert(i <= r && imports_at(line, m, r));
            }
            if exists|r: int| i <= r && #[trigger] imports_at(line, m, r) {
                let r = choose|r: int| i <= r && #[trigger] imports_at(line, m, r);
                assert(at(line, c, r));
                if r < p {
                    assert(!at(line, c, r));
                } else if r == p {
                    assert(here[0] == m);
                } else if r < q {
                    assert(line.subrange(p, p + 7)[r - p] == line[r]);
                    assert(line.subrange(r, r + 7)[0] == line[r]);
                    assert(c[r - p] == 'c');
                    assert(c[1] == 'r' && c[2] == 'a' && c[3] == 't' && c[4] == 'e' && c[5] == ':'
                        && c[6] == ':');
                }
            }
        },
        None => {},
    }
}

/// A text refers to a module if and only if `crate::` and the name of the module stand on a line of
/// it.
pub proof fn texts_refer_by_absolute_paths(text: Seq<char>, m: Seq<char>)
    ensures
        imports(text).contains(m) <==> exists|i: int, p: int|
            0 <= i < lines_of(text).len() && 0 <= p && #[trigger] imports_at(lines_of(text)[i], m, p),
{
    let ls = lines_of(text);
    let f = line_imports(ls);
    let n = ls.len() as int;
    gather_contains(n, f, m);
    if imports(text).contains(m) {
        let i = choose|i: int| 0 <= i < n && (#[trigger] f(i)).contains(m);
        imports_on(ls[i], m, 0);
        let p = choose|p: int| 0 <= p && #[trigger] imports_at(ls[i], m, p);
        assert(imports_at(lines_of(text)[i], m, p));
    }
    if exists|i: int, p: int|
        0 <= i < lines_of(text).len() && 0 <= p && #[trigger] imports_at(lines_of(text)[i], m, p) {
        let (i, p) = choose|i: int, p: int|
            0 <= i < lines_of(text).len() && 0 <= p && #[trigger] imports_at(lines_of(text)[i], m, p);
        imports_on(ls[i], m, 0);
        assert(f(i).contains(m));
    }
}

/// A new file is coupled to the directories of the modules that it refers to, as far as they are
/// known.
pub proof fn new_files_are_coupled_by_reference(
    text: Seq<char>,
    dirs: Seq<(Seq<char>, String)>,
    d: Seq<char>,
)
    requires
        in_order(false, dirs),
    ensures
        import_dirs(text, dirs).contains(d) <==> exists|k: int|
            0 <= k < dirs.len() && imports(text).contains((#[trigger] dirs[k]).0) && dirs[k].1@ == d,
{
    let ms = imports(text);
    let f = import_dir(ms, dirs);
    let n = ms.len() as int;
    gather_contains(n, f, d);
    if import_dirs(text, dirs).contains(d) {
        let i = choose|i: int| 0 <= i < n && (#[trigger] f(i)).contains(d);
        let found = f(i);
        let j = choose|j: int| 0 <= j < found.len() && found[j] == d;
        let k = row_of(dirs, ms[i])->0;
        assert(dirs[k].0 == ms[i]);
        assert(ms.contains(ms[i]));
    }
    if exists|k: int|
        0 <= k < dirs.len() && imports(text).contains((#[trigger] dirs[k]).0) && dirs[k].1@ == d {
        let k = choose|k: int|
            0 <= k < dirs.len() && imports(text).contains((#[trigger] dirs[k]).0) && dirs[k].1@ == d;
        let i = choose|i: int| 0 <= i < ms.len() && ms[i] == dirs[k].0;
        row_unique(false, dirs, k);
        assert(f(i)[0] == d);
        assert(f(i).contains(d));
    }
}

/// Whether a file names a module: it is that module, other than as the root of a crate or of a
/// directory, or a directory on the way to it, other than `src`, is.
pub open spec fn names(file: Seq<char>, m: Seq<char>) -> bool {
    ||| {
        &&& parts(file, '/').last() == m + seq!['.', 'r', 's']
        &&& m != seq!['l', 'i', 'b']
        &&& m != seq!['m', 'a', 'i', 'n']
        &&& m != seq!['m', 'o', 'd']
    }
    ||| {
        &&& parts(dir_of(file), '/').contains(m)
        &&& m.len() > 0
        &&& m != seq!['s', 'r', 'c']
    }
}

proof fn names_is(file: Seq<char>, m: Seq<char>)
    ensures
        modules_of(file).contains(m) <==> names(file, m),
{
    reveal_strlit(".rs");
    reveal_strlit("lib");
    reveal_strlit("main");
    reveal_strlit("mod");
    reveal_strlit("src");
    assert(".rs"@ =~= seq!['.', 'r', 's']);
    assert("lib"@ =~= seq!['l', 'i', 'b']);
    assert("main"@ =~= seq!['m', 'a', 'i', 'n']);
    assert("mod"@ =~= seq!['m', 'o', 'd']);
    assert("src"@ =~= seq!['s', 'r', 'c']);
    let ps = parts(dir_of(file), '/');
    let f = dir_module(ps);
    let own = own_module(file);
    concat_contains(own, gather(ps.len() as int, f), m);
    gather_contains(ps.len() as int, f, m);
    let l = parts(file, '/').last();
    let n = l.len() as int;
    if own.contains(m) {
        let k = choose|k: int| 0 <= k < own.len() && own[k] == m;
        assert(l.subrange(n - 3, n) == ".rs"@);
        assert(l =~= l.take(n - 3) + l.subrange(n - 3, n));
    }
    if l == m + seq!['.', 'r', 's'] {
        assert(l.subrange(n - 3, n) =~= ".rs"@);
        assert(l.take(n - 3) =~= m);
        if m != "lib"@ && m != "main"@ && m != "mod"@ {
            assert(own[0] == m);
            assert(own.contains(m));
        }
    }
    if gather(ps.len() as int, f).contains(m) {
        let i = choose|i: int| 0 <= i < ps.len() && (#[trigger] f(i)).contains(m);
        let found = f(i);
        let k = choose|k: int| 0 <= k < found.len() && found[k] == m;
        assert(ps.contains(m));
    }
    if ps.contains(m) && m.len() > 0 && m != "src"@ {
        let i = choose|i: int| 0 <= i < ps.len() && ps[i] == m;
        assert(f(i)[0] == m);
        assert(f(i).contains(m));
    }
}

/// Whether the file at a position is the first of several that names a module.
pub open spec fn first_names(files: Seq<Seq<char>>, m: Seq<char>, i: int) -> bool {
    0 <= i < files.len() && names(files[i], m) && forall|j: int|
        0 <= j < i ==> !names(#[trigger] files[j], m)
}

proof fn first_on(files: Seq<Seq<char>>, m: Seq<char>, i: int)
    requires
        0 <= i <= files.len(),
        forall|j: int| 0 <= j < i ==> !names(#[trigger] files[j], m),
    ensures
        match first_naming(files, m, i) {
            Some(f) => exists|k: int| #[trigger] first_names(files, m, k) && files[k] == f,
            None => forall|j: int| 0 <= j < files.len() ==> !names(#[trigger] files[j], m),
        },
    decreases files.len() - i,
{
    if i < files.len() {
        names_is(files[i], m);
        if modules_of(files[i]).contains(m) {
            assert(first_names(files, m, i));
        } else {
            first_on(files, m, i + 1);
        }
    }
}

/// The directory of a module is that of the first file that names it.
pub proof fn modules_are_where_the_first_file_is(files: Seq<Seq<char>>, m: Seq<char>)
    ensures
        match module_dir(files, m) {
            Some(d) => exists|k: int| #[trigger] first_names(files, m, k) && d == dir_of(files[k]),
            None => forall|j: int| 0 <= j < files.len() ==> !names(#[trigger] files[j], m),
        },
{
    first_on(files, m, 0);
}

// ── what belongs elsewhere ─────────────────────────────────────────────────────────────

/// Whether a file is used, and only from files in one other directory.
pub open spec fn used_only_from(
    deps: Seq<(Seq<char>, crate::order::Names)>,
    file: Seq<char>,
    dir: Seq<char>,
) -> bool {
    &&& exists|user: Seq<char>| #[trigger] links(deps, user, file)
    &&& forall|user: Seq<char>| #[trigger] links(deps, user, file) ==> dir_of(user) == dir
    &&& dir_of(file) != dir
}

/// The files that belong elsewhere are those that are used, and only from one directory that is not
/// their own; that directory is where each belongs.
pub proof fn files_belong_with_their_users(
    deps: Seq<(Seq<char>, crate::order::Names)>,
    ms: Seq<Misplacement>,
    file: Seq<char>,
    dir: Seq<char>,
)
    requires
        lists_misplaced(deps, ms),
    ensures
        used_only_from(deps, file, dir) <==> exists|i: int|
            0 <= i < ms.len() && (#[trigger] ms[i]).file@ == file && ms[i].suggested_dir@ == dir,
{
    if used_only_from(deps, file, dir) {
        let user = choose|user: Seq<char>| #[trigger] links(deps, user, file);
        assert(links(deps, user, file));
        assert(belongs_in(deps, file, dir));
        let i = choose|i: int| 0 <= i < ms.len() && (#[trigger] ms[i]).file@ == file;
        assert(misplaced(deps, ms[i]));
        assert(ms[i].suggested_dir@ == dir);
    }
    if exists|i: int|
        0 <= i < ms.len() && (#[trigger] ms[i]).file@ == file && ms[i].suggested_dir@ == dir {
        let i = choose|i: int|
            0 <= i < ms.len() && (#[trigger] ms[i]).file@ == file && ms[i].suggested_dir@ == dir;
        assert(misplaced(deps, ms[i]));
        let user = choose|user: Seq<char>| #[trigger] links(deps, user, file);
        assert(links(deps, user, file));
    }
}

} // verus!
