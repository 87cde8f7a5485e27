//! What an index says of the symbols and the files of a repository.
use vstd::prelude::*;

use crate::forgotten::tests_from;
use crate::laws::lines::{before_brace_is_before, begins, begins_is_starts, stands_before_brace};
use crate::moves::Workspace;
use crate::order::{in_order, links, named, row_unique, value_of, Ranked};
use crate::paths::plain;
use crate::scip::{
    alive, all_defs, all_deps, all_refs, dead, def_at, def_in, defines, defs_at, dep_at, deps_at,
    encloser_from, enclosers, encloses, last_def, range_of, ref_at, ref_chain, refers, refs_at,
    roots_are_not_dead, roots_of, span_rank, sym_opt, trait_impl_above, CodeGraph, DefView,
    DocumentView, EncView, Range,
};
use crate::text::{ends, gather, gather_contains, lines_of, starts, trimmed_start};

verus! {

// ── what is dead ───────────────────────────────────────────────────────────────────────

/// Whether a line begins an `impl`.
pub open spec fn begins_impl(line: Seq<char>) -> bool {
    begins(line, "impl "@) || begins(line, "impl<"@)
}

/// Whether the `impl` that a line begins is that of a trait: `for` comes as a word before its brace.
pub open spec fn names_trait(line: Seq<char>) -> bool {
    stands_before_brace(line, " for "@)
}

/// Whether line `h` is the nearest line from `n` upwards that begins an `impl`.
pub open spec fn nearest_impl(ls: Seq<Seq<char>>, n: int, h: int) -> bool {
    &&& 0 <= h <= n < ls.len()
    &&& begins_impl(ls[h])
    &&& forall|m: int| h < m <= n ==> !begins_impl(#[trigger] ls[m])
}

/// Whether the nearest `impl` from line `n` upwards is that of a trait.
pub open spec fn stands_in_trait_impl(ls: Seq<Seq<char>>, n: int) -> bool {
    exists|h: int| #[trigger] nearest_impl(ls, n, h) && names_trait(ls[h])
}

proof fn impl_word_facts(line: Seq<char>)
    ensures
        begins_impl(line) <==> starts(trimmed_start(line), "impl "@) || starts(
            trimmed_start(line),
            "impl<"@,
        ),
        begins_impl(line) ==> (crate::text::occurs(
            crate::text::parts(trimmed_start(line), '{')[0],
            " for "@,
        ) <==> names_trait(line)),
{
    reveal_strlit("impl ");
    reveal_strlit("impl<");
    reveal_strlit(" for ");
    begins_is_starts(line, "impl "@);
    begins_is_starts(line, "impl<"@);
    if begins_impl(line) {
        let t = trimmed_start(line);
        if starts(t, "impl "@) {
            assert(t.subrange(0, 5)[0] == t[0]);
        } else {
            assert(t.subrange(0, 5)[0] == t[0]);
        }
        assert(t[0] == 'i');
        before_brace_is_before(line, " for "@);
    }
}

proof fn trait_above_is_nearest(ls: Seq<Seq<char>>, i: int, n: int)
    requires
        -1 <= i <= n < ls.len(),
        forall|m: int| i < m <= n ==> !begins_impl(#[trigger] ls[m]),
    ensures
        trait_impl_above(ls, i) <==> stands_in_trait_impl(ls, n),
    decreases i + 1,
{
    if i >= 0 {
        impl_word_facts(ls[i]);
        if begins_impl(ls[i]) {
            assert(nearest_impl(ls, n, i));
            if stands_in_trait_impl(ls, n) {
                let h = choose|h: int| #[trigger] nearest_impl(ls, n, h) && names_trait(ls[h]);
                if h < i {
                    assert(!begins_impl(ls[i]));
                } else if h > i {
                    assert(!begins_impl(ls[h]));
                }
            }
        } else {
            trait_above_is_nearest(ls, i - 1, n);
        }
    } else {
        if stands_in_trait_impl(ls, n) {
            let h = choose|h: int| #[trigger] nearest_impl(ls, n, h) && names_trait(ls[h]);
            assert(!begins_impl(ls[h]));
        }
    }
}

/// The line on which a symbol stands in a text of several lines: the one that the index gives, or
/// the last where the text is shorter.
pub open spec fn home_line(sl: i32, count: int) -> int {
    if sl < 0 {
        0
    } else if sl < count {
        sl as int
    } else {
        count - 1
    }
}

proof fn tests_begin(ls: Seq<Seq<char>>, i: int)
    requires
        0 <= i <= ls.len(),
    ensures
        i <= tests_from(ls, i) <= ls.len(),
        forall|m: int| i <= m < tests_from(ls, i) ==> !begins(#[trigger] ls[m], "#[cfg(test)]"@),
        tests_from(ls, i) < ls.len() ==> begins(ls[tests_from(ls, i)], "#[cfg(test)]"@),
    decreases ls.len() - i,
{
    if i < ls.len() {
        reveal_strlit("#[cfg(test)]");
        begins_is_starts(ls[i], "#[cfg(test)]"@);
        if !begins(ls[i], "#[cfg(test)]"@) {
            tests_begin(ls, i + 1);
        }
    }
}

/// A symbol that stands in the implementation of a trait is never dead: it is reached without a
/// reference. Neither is one on a line that begins with `pub`, one that is named `main`, nor one
/// that the index marks as an implementation.
pub proof fn entries_are_never_dead(
    g: CodeGraph,
    ws: Workspace,
    kinds: Seq<i32>,
    roots: Seq<(Seq<char>, ())>,
    i: int,
    text: String,
)
    requires
        roots_of(g, ws, roots),
        in_order(false, g.symbols@),
        0 <= i < g.symbols@.len(),
        value_of(ws.files@, plain(g.symbols@[i].1.file@)) == Some(text),
        lines_of(text@).len() > 0,
        ({
            let s = g.symbols@[i].1;
            let ls = lines_of(text@);
            ||| s.is_impl
            ||| s.display@ == "main"@
            ||| (s.def.sl < ls.len() && (begins(ls[home_line(s.def.sl, ls.len() as int)], "pub "@)
                || begins(ls[home_line(s.def.sl, ls.len() as int)], "pub("@)))
            ||| stands_in_trait_impl(ls, home_line(s.def.sl, ls.len() as int))
        }),
    ensures
        !dead(g, ws, kinds, roots, i),
{
    let s = g.symbols@[i].1;
    let ls = lines_of(text@);
    let n = home_line(s.def.sl, ls.len() as int);
    reveal_strlit("pub ");
    reveal_strlit("pub(");
    begins_is_starts(ls[n], "pub "@);
    begins_is_starts(ls[n], "pub("@);
    trait_above_is_nearest(ls, n, n);
    roots_are_not_dead(g, ws, kinds, roots, i);
}

/// A symbol of a Rust file that nothing refers to is dead, unless it is alive by itself or stands
/// in the tests: it is on no line that begins with `pub`, is not named `main`, is not marked as an
/// implementation, and the nearest `impl` from its line upwards, if there is one, names no trait.
pub proof fn unreferred_is_dead(
    g: CodeGraph,
    ws: Workspace,
    kinds: Seq<i32>,
    roots: Seq<(Seq<char>, ())>,
    i: int,
    text: String,
)
    requires
        roots_of(g, ws, roots),
        in_order(false, g.symbols@),
        0 <= i < g.symbols@.len(),
        value_of(ws.files@, plain(g.symbols@[i].1.file@)) == Some(text),
        ({
            let s = g.symbols@[i].1;
            let ls = lines_of(text@);
            let n = home_line(s.def.sl, ls.len() as int);
            &&& ends(s.file@, ".rs"@)
            &&& kinds.len() == 0 || kinds.contains(s.kind)
            &&& s.def.sl < ls.len()
            &&& ls.len() > 0
            &&& !s.is_impl
            &&& s.display@ != "main"@
            &&& !begins(ls[n], "pub "@)
            &&& !begins(ls[n], "pub("@)
            &&& !stands_in_trait_impl(ls, n)
            &&& forall|m: int| 0 <= m <= n ==> !begins(#[trigger] ls[m], "#[cfg(test)]"@)
        }),
        forall|a: Seq<char>| !#[trigger] links(g.refs@, a, g.symbols@[i].0),
    ensures
        dead(g, ws, kinds, roots, i),
{
    let s = g.symbols@[i].1;
    let id = g.symbols@[i].0;
    let ls = lines_of(text@);
    let n = home_line(s.def.sl, ls.len() as int);
    reveal_strlit("pub ");
    reveal_strlit("pub(");
    begins_is_starts(ls[n], "pub "@);
    begins_is_starts(ls[n], "pub("@);
    trait_above_is_nearest(ls, n, n);
    row_unique(false, g.symbols@, i);
    tests_begin(ls, 0);
    if alive(g.refs@, roots, id) {
        let e = choose|e: Seq<char>| #[trigger] named(roots, e) && refers(g.refs@, e, id);
        let p = choose|p: Seq<Seq<char>>| #[trigger]
            ref_chain(g.refs@, p) && p[0] == e && p.last() == id;
        if p.len() > 1 {
            let k = p.len() - 2;
            assert(links(g.refs@, p[k], p[k + 1]));
            assert(false);
        } else {
            assert(e == id);
            assert(false);
        }
    }
}

/// Nothing that stands behind the beginning of the tests of its file is dead, nor anything in a file
/// that is no Rust file, nor anything of a kind that was not asked for.
pub proof fn tests_are_never_dead(
    g: CodeGraph,
    ws: Workspace,
    kinds: Seq<i32>,
    roots: Seq<(Seq<char>, ())>,
    i: int,
    text: String,
    m: int,
)
    requires
        0 <= i < g.symbols@.len(),
        value_of(ws.files@, plain(g.symbols@[i].1.file@)) == Some(text),
        0 <= m < lines_of(text@).len(),
    ensures
        begins(lines_of(text@)[m], "#[cfg(test)]"@) && m <= g.symbols@[i].1.def.sl ==> !dead(
            g,
            ws,
            kinds,
            roots,
            i,
        ),
        !ends(g.symbols@[i].1.file@, ".rs"@) ==> !dead(g, ws, kinds, roots, i),
        kinds.len() > 0 && !kinds.contains(g.symbols@[i].1.kind) ==> !dead(g, ws, kinds, roots, i),
{
    let ls = lines_of(text@);
    tests_begin(ls, 0);
    if begins(ls[m], "#[cfg(test)]"@) {
        assert(tests_from(ls, 0) <= m);
    }
}

/// What a chain of references leads to from something that is alive by itself is never dead.
pub proof fn referred_is_not_dead(
    g: CodeGraph,
    ws: Workspace,
    kinds: Seq<i32>,
    roots: Seq<(Seq<char>, ())>,
    p: Seq<Seq<char>>,
    i: int,
)
    requires
        roots_of(g, ws, roots),
        p.len() > 0,
        named(roots, p[0]),
        forall|k: int| 0 <= k < p.len() - 1 ==> links(g.refs@, #[trigger] p[k], p[k + 1]),
        0 <= i < g.symbols@.len(),
        g.symbols@[i].0 == p.last(),
    ensures
        !dead(g, ws, kinds, roots, i),
{
    assert(ref_chain(g.refs@, p));
    assert(refers(g.refs@, p[0], p.last()));
}

// ── what a graph links ─────────────────────────────────────────────────────────────────

/// Whether the occurrence at a position of a file uses its symbol: it is marked with a place in the
/// text, and not as a definition.
pub open spec fn uses(docs: Seq<DocumentView>, d: int, i: int) -> bool {
    &&& 0 <= d < docs.len()
    &&& 0 <= i < docs[d].occurrences.len()
    &&& (docs[d].occurrences[i].roles & 1) == 0
    &&& docs[d].occurrences[i].range.len() >= 3
}

proof fn uses_is(docs: Seq<DocumentView>, d: int, i: int)
    requires
        0 <= d < docs.len(),
        0 <= i < docs[d].occurrences.len(),
    ensures
        uses(docs, d, i) <==> !defines(docs[d].occurrences[i]) && range_of(
            docs[d].occurrences[i].range,
        ) is Some,
{
}

/// A graph says that a file depends on another exactly where the file uses a symbol that the other
/// defines, unless that symbol is a module.
pub proof fn files_depend_by_use(g: CodeGraph, docs: Seq<DocumentView>, a: Seq<char>, b: Seq<char>)
    requires
        g.graphs(docs),
    ensures
        links(g.file_deps@, a, b) <==> a != b && exists|d: int, i: int|
            {
                &&& #[trigger] uses(docs, d, i)
                &&& docs[d].path == a
                &&& value_of(g.symbols@, docs[d].occurrences[i].symbol) is Some
                &&& value_of(g.symbols@, docs[d].occurrences[i].symbol)->0.file@ == b
                &&& value_of(g.symbols@, docs[d].occurrences[i].symbol)->0.kind != 29
            },
{
    let all = deps_at(docs);
    let e = (a, b);
    gather_contains(docs.len() as int, all, e);
    assert(links(g.file_deps@, a, b) <==> all_deps(docs).contains(e));
    if all_deps(docs).contains(e) {
        let d = choose|d: int| 0 <= d < docs.len() && (#[trigger] all(d)).contains(e);
        let one = dep_at(docs, d);
        gather_contains(docs[d].occurrences.len() as int, one, e);
        let i = choose|i: int|
            0 <= i < docs[d].occurrences.len() && (#[trigger] one(i)).contains(e);
        let found = one(i);
        let k = choose|k: int| 0 <= k < found.len() && found[k] == e;
        uses_is(docs, d, i);
        let id = docs[d].occurrences[i].symbol;
        assert(sym_opt(value_of(g.symbols@, id)) == last_def(
            all_defs(docs),
            id,
            all_defs(docs).len() as int,
        ));
        assert(uses(docs, d, i));
    }
    if a != b && exists|d: int, i: int|
        {
            &&& #[trigger] uses(docs, d, i)
            &&& docs[d].path == a
            &&& value_of(g.symbols@, docs[d].occurrences[i].symbol) is Some
            &&& value_of(g.symbols@, docs[d].occurrences[i].symbol)->0.file@ == b
            &&& value_of(g.symbols@, docs[d].occurrences[i].symbol)->0.kind != 29
        } {
        let (d, i) = choose|d: int, i: int|
            {
                &&& #[trigger] uses(docs, d, i)
                &&& docs[d].path == a
                &&& value_of(g.symbols@, docs[d].occurrences[i].symbol) is Some
                &&& value_of(g.symbols@, docs[d].occurrences[i].symbol)->0.file@ == b
                &&& value_of(g.symbols@, docs[d].occurrences[i].symbol)->0.kind != 29
            };
        uses_is(docs, d, i);
        let id = docs[d].occurrences[i].symbol;
        assert(sym_opt(value_of(g.symbols@, id)) == last_def(
            all_defs(docs),
            id,
            all_defs(docs).len() as int,
        ));
        let one = dep_at(docs, d);
        assert(one(i)[0] == e);
        assert(one(i).contains(e));
        gather_contains(docs[d].occurrences.len() as int, one, e);
        assert(all(d).contains(e));
    }
}

/// Whether the occurrence at a position of a file defines its symbol: it is marked as a definition
/// with a place in the text, and the symbol has a name that is not local.
pub open spec fn makes(docs: Seq<DocumentView>, d: int, i: int) -> bool {
    &&& 0 <= d < docs.len()
    &&& 0 <= i < docs[d].occurrences.len()
    &&& (docs[d].occurrences[i].roles & 1) != 0
    &&& docs[d].occurrences[i].range.len() >= 3
    &&& docs[d].occurrences[i].symbol.len() > 0
    &&& !starts(docs[d].occurrences[i].symbol, "local "@)
}

/// The place that three or four numbers give: a line and a column, and where it ends, on the same
/// line where there are three.
pub open spec fn place_of(r: Seq<i32>) -> Range {
    if r.len() == 3 {
        Range { sl: r[0], sc: r[1], el: r[0], ec: r[2] }
    } else {
        Range { sl: r[0], sc: r[1], el: r[2], ec: r[3] }
    }
}

/// The text that the definition at a position covers: what the index gives, or else the place of the
/// definition itself.
pub open spec fn covered(docs: Seq<DocumentView>, d: int, i: int) -> Range {
    if docs[d].occurrences[i].enclosing.len() >= 3 {
        place_of(docs[d].occurrences[i].enclosing)
    } else {
        place_of(docs[d].occurrences[i].range)
    }
}

proof fn defs_are(docs: Seq<DocumentView>, v: DefView)
    ensures
        all_defs(docs).contains(v) ==> exists|d: int, i: int|
            {
                &&& #[trigger] makes(docs, d, i)
                &&& v.symbol == docs[d].occurrences[i].symbol
                &&& v.sym.file == docs[d].path
                &&& v.sym.def == place_of(docs[d].occurrences[i].range)
                &&& v.sym.enclosing == covered(docs, d, i)
            },
{
    let all = defs_at(docs);
    gather_contains(docs.len() as int, all, v);
    if all_defs(docs).contains(v) {
        let d = choose|d: int| 0 <= d < docs.len() && (#[trigger] all(d)).contains(v);
        let one = def_at(docs[d]);
        gather_contains(docs[d].occurrences.len() as int, one, v);
        let i = choose|i: int|
            0 <= i < docs[d].occurrences.len() && (#[trigger] one(i)).contains(v);
        let found = one(i);
        let k = choose|k: int| 0 <= k < found.len() && found[k] == v;
        assert(makes(docs, d, i));
    }
}

proof fn def_made(docs: Seq<DocumentView>, d: int, i: int) -> (v: DefView)
    requires
        makes(docs, d, i),
    ensures
        all_defs(docs).contains(v),
        v.symbol == docs[d].occurrences[i].symbol,
        v.sym.file == docs[d].path,
        v.sym.def == place_of(docs[d].occurrences[i].range),
        v.sym.enclosing == covered(docs, d, i),
{
    let all = defs_at(docs);
    let one = def_at(docs[d]);
    let v = one(i)[0];
    assert(one(i).contains(v));
    gather_contains(docs[d].occurrences.len() as int, one, v);
    assert(all(d).contains(v));
    gather_contains(docs.len() as int, all, v);
    v
}

proof fn last_def_is(defs: Seq<DefView>, symbol: Seq<char>, n: int)
    requires
        0 <= n <= defs.len(),
    ensures
        match last_def(defs, symbol, n) {
            Some(s) => exists|k: int|
                0 <= k < n && #[trigger] defs[k].symbol == symbol && defs[k].sym == s && forall|j: int|
                    k < j < n ==> #[trigger] defs[j].symbol != symbol,
            None => forall|j: int| 0 <= j < n ==> #[trigger] defs[j].symbol != symbol,
        },
    decreases n,
{
    if n > 0 {
        last_def_is(defs, symbol, n - 1);
        if defs[n - 1].symbol == symbol {
            assert(defs[n - 1].symbol == symbol);
        } else {
            match last_def(defs, symbol, n - 1) {
                Some(s) => {
                    let k = choose|k: int|
                        0 <= k < n - 1 && #[trigger] defs[k].symbol == symbol && defs[k].sym == s
                            && forall|j: int|
                            k < j < n - 1 ==> #[trigger] defs[j].symbol != symbol;
                    assert(defs[k].symbol == symbol);
                },
                None => {},
            }
        }
    }
}

/// A graph holds exactly the symbols that some occurrence defines, each with the file and the place
/// of such an occurrence.
pub proof fn symbols_are_defined(g: CodeGraph, docs: Seq<DocumentView>, id: Seq<char>)
    requires
        g.graphs(docs),
    ensures
        value_of(g.symbols@, id) is Some <==> exists|d: int, i: int| #[trigger]
            makes(docs, d, i) && docs[d].occurrences[i].symbol == id,
        value_of(g.symbols@, id) is Some ==> exists|d: int, i: int| #[trigger]
            makes(docs, d, i) && docs[d].occurrences[i].symbol == id && value_of(
                g.symbols@,
                id,
            )->0.file@ == docs[d].path && value_of(g.symbols@, id)->0.def == place_of(
                docs[d].occurrences[i].range,
            ) && value_of(g.symbols@, id)->0.enclosing == covered(docs, d, i),
{
    let defs = all_defs(docs);
    let n = defs.len() as int;
    last_def_is(defs, id, n);
    assert(sym_opt(value_of(g.symbols@, id)) == last_def(defs, id, n));
    if value_of(g.symbols@, id) is Some {
        let s = last_def(defs, id, n)->0;
        let k = choose|k: int|
            0 <= k < n && #[trigger] defs[k].symbol == id && defs[k].sym == s && forall|j: int|
                k < j < n ==> #[trigger] defs[j].symbol != id;
        assert(defs.contains(defs[k]));
        defs_are(docs, defs[k]);
        let (d, i) = choose|d: int, i: int|
            {
                &&& #[trigger] makes(docs, d, i)
                &&& defs[k].symbol == docs[d].occurrences[i].symbol
                &&& defs[k].sym.file == docs[d].path
                &&& defs[k].sym.def == place_of(docs[d].occurrences[i].range)
                &&& defs[k].sym.enclosing == covered(docs, d, i)
            };
        assert(makes(docs, d, i));
    }
    if exists|d: int, i: int| #[trigger]
        makes(docs, d, i) && docs[d].occurrences[i].symbol == id {
        let (d, i) = choose|d: int, i: int| #[trigger]
            makes(docs, d, i) && docs[d].occurrences[i].symbol == id;
        let v = def_made(docs, d, i);
        let k = choose|k: int| 0 <= k < defs.len() && defs[k] == v;
        assert(defs[k].symbol == id);
    }
}

/// Whether a range covers a point: it does not begin behind the point, and does not end before it.
pub open spec fn covers(r: Range, line: i32, col: i32) -> bool {
    &&& r.sl < line || (r.sl == line && r.sc <= col)
    &&& line < r.el || (line == r.el && col <= r.ec)
}

/// Whether a range is smaller than another: it takes fewer lines, or as many and fewer columns.
pub open spec fn smaller(a: Range, b: Range) -> bool {
    a.el - a.sl < b.el - b.sl || (a.el - a.sl == b.el - b.sl && a.ec - a.sc < b.ec - b.sc)
}

proof fn smaller_is_before(a: Range, b: Range)
    ensures
        smaller(a, b) <==> crate::order::before(span_rank(a), span_rank(b)),
{
    let x = span_rank(a);
    let y = span_rank(b);
    reveal_with_fuel(crate::order::before_from, 3);
    assert(x[0] == a.el - a.sl && x[1] == a.ec - a.sc);
    assert(y[0] == b.el - b.sl && y[1] == b.ec - b.sc);
}

proof fn encloser_is(es: Seq<EncView>, line: i32, col: i32, i: int)
    requires
        0 <= i,
    ensures
        match encloser_from(es, line, col, i) {
            Some(s) => exists|k: int|
                i <= k < es.len() && (#[trigger] es[k]).symbol == s && encloses(
                    es[k].range,
                    line,
                    col,
                ) && forall|j: int| i <= j < k ==> !encloses((#[trigger] es[j]).range, line, col),
            None => forall|j: int|
                i <= j < es.len() ==> !encloses((#[trigger] es[j]).range, line, col),
        },
    decreases es.len() - i,
{
    if i < es.len() {
        if encloses(es[i].range, line, col) {
            assert(es[i].symbol == es[i].symbol);
        } else {
            encloser_is(es, line, col, i + 1);
            match encloser_from(es, line, col, i + 1) {
                Some(s) => {
                    let k = choose|k: int|
                        i + 1 <= k < es.len() && (#[trigger] es[k]).symbol == s && encloses(
                            es[k].range,
                            line,
                            col,
                        ) && forall|j: int|
                            i + 1 <= j < k ==> !encloses((#[trigger] es[j]).range, line, col);
                    assert(es[k].symbol == s);
                },
                None => {},
            }
        }
    }
}

proof fn enclosers_hold(docs: Seq<DocumentView>, file: Seq<char>, v: EncView)
    ensures
        enclosers(all_defs(docs), file).contains(v) <==> exists|d: int, i: int| #[trigger]
            makes(docs, d, i) && docs[d].path == file && docs[d].occurrences[i].symbol == v.symbol
                && covered(docs, d, i) == v.range,
{
    let defs = all_defs(docs);
    let one = def_in(defs, file);
    let raw = gather(defs.len() as int, one);
    crate::order::arranged_contains(raw, v);
    gather_contains(defs.len() as int, one, v);
    if raw.contains(v) {
        let k = choose|k: int| 0 <= k < defs.len() && (#[trigger] one(k)).contains(v);
        let found = one(k);
        let m = choose|m: int| 0 <= m < found.len() && found[m] == v;
        assert(defs.contains(defs[k]));
        defs_are(docs, defs[k]);
        let (d, i) = choose|d: int, i: int|
            {
                &&& #[trigger] makes(docs, d, i)
                &&& defs[k].symbol == docs[d].occurrences[i].symbol
                &&& defs[k].sym.file == docs[d].path
                &&& defs[k].sym.def == place_of(docs[d].occurrences[i].range)
                &&& defs[k].sym.enclosing == covered(docs, d, i)
            };
        assert(makes(docs, d, i));
    }
    if exists|d: int, i: int| #[trigger]
        makes(docs, d, i) && docs[d].path == file && docs[d].occurrences[i].symbol == v.symbol
            && covered(docs, d, i) == v.range {
        let (d, i) = choose|d: int, i: int| #[trigger]
            makes(docs, d, i) && docs[d].path == file && docs[d].occurrences[i].symbol == v.symbol
                && covered(docs, d, i) == v.range;
        let w = def_made(docs, d, i);
        let k = choose|k: int| 0 <= k < defs.len() && defs[k] == w;
        assert(one(k)[0] == v);
        assert(one(k).contains(v));
    }
}

/// Whether the definition at a position covers the occurrence at another most closely: both are of
/// one file, the definition covers the place where the occurrence begins, and no definition of that
/// file that covers it is smaller.
pub open spec fn covers_closely(
    docs: Seq<DocumentView>,
    d: int,
    i: int,
    c: int,
    k: int,
) -> bool {
    let at = place_of(docs[d].occurrences[i].range);
    &&& makes(docs, c, k)
    &&& docs[c].path == docs[d].path
    &&& covers(covered(docs, c, k), at.sl, at.sc)
    &&& forall|e: int, m: int| #[trigger]
        makes(docs, e, m) && docs[e].path == docs[d].path && covers(
            covered(docs, e, m),
            at.sl,
            at.sc,
        ) ==> !smaller(covered(docs, e, m), covered(docs, c, k))
}

proof fn encloser_is_close(docs: Seq<DocumentView>, d: int, i: int)
    requires
        uses(docs, d, i),
    ensures
        ({
            let at = place_of(docs[d].occurrences[i].range);
            match encloser_from(enclosers(all_defs(docs), docs[d].path), at.sl, at.sc, 0) {
                Some(s) => exists|c: int, k: int| #[trigger]
                    covers_closely(docs, d, i, c, k) && docs[c].occurrences[k].symbol == s,
                None => forall|c: int, k: int| #[trigger]
                    makes(docs, c, k) && docs[c].path == docs[d].path ==> !covers(
                        covered(docs, c, k),
                        at.sl,
                        at.sc,
                    ),
            }
        }),
{
    let at = place_of(docs[d].occurrences[i].range);
    let file = docs[d].path;
    let es = enclosers(all_defs(docs), file);
    let raw = gather(all_defs(docs).len() as int, def_in(all_defs(docs), file));
    crate::order::arranged_facts(raw);
    encloser_is(es, at.sl, at.sc, 0);
    match encloser_from(es, at.sl, at.sc, 0) {
        Some(s) => {
            let q = choose|q: int|
                0 <= q < es.len() && (#[trigger] es[q]).symbol == s && encloses(
                    es[q].range,
                    at.sl,
                    at.sc,
                ) && forall|j: int| 0 <= j < q ==> !encloses((#[trigger] es[j]).range, at.sl, at.sc);
            assert(es.contains(es[q]));
            enclosers_hold(docs, file, es[q]);
            let (c, k) = choose|c: int, k: int| #[trigger]
                makes(docs, c, k) && docs[c].path == file && docs[c].occurrences[k].symbol
                    == es[q].symbol && covered(docs, c, k) == es[q].range;
            assert forall|e: int, m: int| #[trigger]
                makes(docs, e, m) && docs[e].path == docs[d].path && covers(
                    covered(docs, e, m),
                    at.sl,
                    at.sc,
                ) implies !smaller(covered(docs, e, m), covered(docs, c, k)) by {
                let w = EncView {
                    symbol: docs[e].occurrences[m].symbol,
                    range: covered(docs, e, m),
                };
                enclosers_hold(docs, file, w);
                let p = choose|p: int| 0 <= p < es.len() && es[p] == w;
                if p < q {
                    assert(!encloses(es[p].range, at.sl, at.sc));
                } else if q < p {
                    use_ascending(es, q, p);
                }
                smaller_is_before(w.range, es[q].range);
                if p == q {
                    crate::order::before_irreflexive(span_rank(w.range));
                }
            }
            assert(covers_closely(docs, d, i, c, k));
        },
        None => {
            assert forall|c: int, k: int| #[trigger]
                makes(docs, c, k) && docs[c].path == docs[d].path implies !covers(
                covered(docs, c, k),
                at.sl,
                at.sc,
            ) by {
                let w = EncView {
                    symbol: docs[c].occurrences[k].symbol,
                    range: covered(docs, c, k),
                };
                enclosers_hold(docs, file, w);
                let p = choose|p: int| 0 <= p < es.len() && es[p] == w;
                assert(!encloses(es[p].range, at.sl, at.sc));
            }
        },
    }
}

proof fn use_ascending(es: Seq<EncView>, q: int, p: int)
    requires
        crate::order::ascending(es),
        0 <= q < p < es.len(),
    ensures
        !crate::order::before(span_rank(es[p].range), span_rank(es[q].range)),
{
    assert(!crate::order::before(es[p].rank(), es[q].rank()));
}

/// A graph says that a symbol refers to another only where some use of that other stands within a
/// definition of the symbol, and no smaller definition of the file covers it.
pub proof fn references_come_from_the_closest(
    g: CodeGraph,
    docs: Seq<DocumentView>,
    x: Seq<char>,
    y: Seq<char>,
)
    requires
        g.graphs(docs),
        links(g.refs@, x, y),
    ensures
        x != y,
        value_of(g.symbols@, y) is Some,
        exists|d: int, i: int, c: int, k: int|
            {
                &&& #[trigger] uses(docs, d, i)
                &&& docs[d].occurrences[i].symbol == y
                &&& #[trigger] covers_closely(docs, d, i, c, k)
                &&& docs[c].occurrences[k].symbol == x
            },
{
    let all = refs_at(docs);
    let e = (x, y);
    gather_contains(docs.len() as int, all, e);
    assert(all_refs(docs).contains(e));
    let d = choose|d: int| 0 <= d < docs.len() && (#[trigger] all(d)).contains(e);
    let one = ref_at(docs, d);
    gather_contains(docs[d].occurrences.len() as int, one, e);
    let i = choose|i: int| 0 <= i < docs[d].occurrences.len() && (#[trigger] one(i)).contains(e);
    let found = one(i);
    let m = choose|m: int| 0 <= m < found.len() && found[m] == e;
    uses_is(docs, d, i);
    assert(sym_opt(value_of(g.symbols@, y)) == last_def(
        all_defs(docs),
        y,
        all_defs(docs).len() as int,
    ));
    encloser_is_close(docs, d, i);
    let (c, k) = choose|c: int, k: int| #[trigger]
        covers_closely(docs, d, i, c, k) && docs[c].occurrences[k].symbol == x;
    assert(uses(docs, d, i) && covers_closely(docs, d, i, c, k));
}

/// A use of a known symbol within a definition is a reference: one of the definitions that cover it
/// most closely refers to the symbol, unless that is the symbol itself.
pub proof fn uses_within_definitions_are_references(
    g: CodeGraph,
    docs: Seq<DocumentView>,
    d: int,
    i: int,
    c: int,
    k: int,
)
    requires
        g.graphs(docs),
        uses(docs, d, i),
        value_of(g.symbols@, docs[d].occurrences[i].symbol) is Some,
        covers_closely(docs, d, i, c, k),
        forall|e: int, m: int| #[trigger]
            covers_closely(docs, d, i, e, m) ==> docs[e].occurrences[m].symbol
                != docs[d].occurrences[i].symbol,
    ensures
        exists|e: int, m: int| #[trigger]
            covers_closely(docs, d, i, e, m) && links(
                g.refs@,
                docs[e].occurrences[m].symbol,
                docs[d].occurrences[i].symbol,
            ),
{
    let y = docs[d].occurrences[i].symbol;
    uses_is(docs, d, i);
    encloser_is_close(docs, d, i);
    let at = place_of(docs[d].occurrences[i].range);
    assert(makes(docs, c, k));
    let s = encloser_from(enclosers(all_defs(docs), docs[d].path), at.sl, at.sc, 0)->0;
    let (e, m) = choose|e: int, m: int| #[trigger]
        covers_closely(docs, d, i, e, m) && docs[e].occurrences[m].symbol == s;
    assert(sym_opt(value_of(g.symbols@, y)) == last_def(
        all_defs(docs),
        y,
        all_defs(docs).len() as int,
    ));
    let one = ref_at(docs, d);
    let p = (s, y);
    assert(one(i)[0] == p);
    assert(one(i).contains(p));
    gather_contains(docs[d].occurrences.len() as int, one, p);
    let all = refs_at(docs);
    assert(all(d).contains(p));
    gather_contains(docs.len() as int, all, p);
    assert(all_refs(docs).contains(p));
    assert(links(g.refs@, s, y));
}

} // verus!
