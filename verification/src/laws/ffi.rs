//! What crosses the seam between Rust and Python.
use vstd::prelude::*;

use crate::ffi::{
    announced, completed, defined_item, export_on, exports_of, file_exports, file_imports,
    given_name, import_on, imported_name, imports_of, joined_import, line_imports, module_home_from,
    name_after, pending_after, pending_at, quoted, taken_name, taken_names, whole_module,
    ExportKind, ExportView, ImportView,
};
use crate::laws::functions::{leading_name, name_at};
use crate::laws::lines::{at_behind, begins, begins_is_starts, blanks_end, parts_stand_between};
use crate::moves::extension_of;
use crate::text::{
    ascii_alphanumeric, at, cut, find, find_from_facts, gather, gather_contains, lines_of, parts,
    span_from, starts, trimmed, trimmed_start, white, Class,
};

verus! {

// ── exports ────────────────────────────────────────────────────────────────────────────

/// Whether a line begins, behind whitespace, with the attribute of a kind of export.
pub open spec fn announces(line: Seq<char>, kind: ExportKind) -> bool {
    match kind {
        ExportKind::Function => begins(line, "#[pyfunction"@),
        ExportKind::Class => begins(line, "#[pyclass"@),
        ExportKind::Module => begins(line, "#[pymodule"@),
    }
}

proof fn apart_at(t: Seq<char>, a: Seq<char>, b: Seq<char>, k: int)
    requires
        starts(t, a),
        starts(t, b),
        0 <= k < a.len(),
        k < b.len(),
    ensures
        a[k] == b[k],
{
    assert(t.subrange(0, a.len() as int)[k] == t[k]);
    assert(t.subrange(0, b.len() as int)[k] == t[k]);
}

proof fn announces_is(line: Seq<char>, kind: ExportKind)
    ensures
        announced(trimmed_start(line)) == Some(kind) <==> announces(line, kind),
{
    reveal_strlit("#[pyfunction");
    reveal_strlit("#[pyclass");
    reveal_strlit("#[pymodule");
    begins_is_starts(line, "#[pyfunction"@);
    begins_is_starts(line, "#[pyclass"@);
    begins_is_starts(line, "#[pymodule"@);
    let t = trimmed_start(line);
    if starts(t, "#[pyfunction"@) && starts(t, "#[pyclass"@) {
        apart_at(t, "#[pyfunction"@, "#[pyclass"@, 4);
    }
    if starts(t, "#[pyfunction"@) && starts(t, "#[pymodule"@) {
        apart_at(t, "#[pyfunction"@, "#[pymodule"@, 4);
    }
    if starts(t, "#[pyclass"@) && starts(t, "#[pymodule"@) {
        apart_at(t, "#[pyclass"@, "#[pymodule"@, 4);
    }
}

/// Whether the first keyword in a line, which stands at position `k`, ends no longer word and has a
/// name behind it.
pub open spec fn keyword_at(line: Seq<char>, kw: Seq<char>, name: Seq<char>, k: int) -> bool {
    &&& at(line, kw + seq![' '], k)
    &&& forall|j: int| 0 <= j < k ==> !word_at(line, kw, j)
    &&& k > 0 ==> !ascii_alphanumeric(line[k - 1])
    &&& name_at(line, name, k + kw.len() + 1)
}

/// Whether a keyword and a space stand in a line at a position.
pub open spec fn word_at(line: Seq<char>, kw: Seq<char>, k: int) -> bool {
    at(line, kw + seq![' '], k)
}

/// The name behind a keyword is the identifier that follows the keyword where it first stands, unless
/// the keyword there ends a longer word.
pub proof fn names_follow_keywords(t: Seq<char>, kw: Seq<char>, name: Seq<char>)
    ensures
        name_after(t, kw) == Some(name) <==> exists|k: int| #[trigger] keyword_at(t, kw, name, k),
{
    let p = kw + seq![' '];
    reveal_strlit(" ");
    assert(kw + " "@ =~= p);
    find_from_facts(t, p, 0);
    match find(t, p) {
        Some(i) => {
            leading_name(t, name, i + kw.len() + 1);
            assert forall|j: int| 0 <= j < i implies !word_at(t, kw, j) by {
                assert(!at(t, p, j));
            }
            if name_after(t, kw) == Some(name) {
                assert(keyword_at(t, kw, name, i));
            }
            if exists|k: int| #[trigger] keyword_at(t, kw, name, k) {
                let k = choose|k: int| #[trigger] keyword_at(t, kw, name, k);
                if k < i {
                    assert(!at(t, p, k));
                } else if i < k {
                    assert(!word_at(t, kw, i));
                }
            }
        },
        None => {
            if exists|k: int| #[trigger] keyword_at(t, kw, name, k) {
                let k = choose|k: int| #[trigger] keyword_at(t, kw, name, k);
                assert(at(t, p, k));
            }
        },
    }
}

/// What an announced kind of export is completed by: a class by a struct or else by an enum, the
/// others by a function.
pub proof fn kinds_are_completed_by_their_items(t: Seq<char>, kind: ExportKind)
    ensures
        kind == ExportKind::Class ==> defined_item(t, kind) == (match name_after(
            t,
            seq!['s', 't', 'r', 'u', 'c', 't'],
        ) {
            Some(n) => Some(n),
            None => name_after(t, seq!['e', 'n', 'u', 'm']),
        }),
        kind != ExportKind::Class ==> defined_item(t, kind) == name_after(t, seq!['f', 'n']),
{
    reveal_strlit("struct");
    reveal_strlit("enum");
    reveal_strlit("fn");
    assert("struct"@ =~= seq!['s', 't', 'r', 'u', 'c', 't']);
    assert("enum"@ =~= seq!['e', 'n', 'u', 'm']);
    assert("fn"@ =~= seq!['f', 'n']);
}

/// Whether a text stands between the first two quotes of another.
pub open spec fn between_quotes(s: Seq<char>, x: Seq<char>, i: int, j: int) -> bool {
    &&& 0 <= i < j < s.len()
    &&& s[i] == '"'
    &&& s[j] == '"'
    &&& forall|k: int| 0 <= k < j && k != i ==> #[trigger] s[k] != '"'
    &&& x == s.subrange(i + 1, j)
}

proof fn quote_at(s: Seq<char>, i: int)
    ensures
        at(s, "\""@, i) <==> 0 <= i < s.len() && s[i] == '"',
{
    reveal_strlit("\"");
    if 0 <= i < s.len() {
        assert(s.subrange(i, i + 1)[0] == s[i]);
        if s[i] == '"' {
            assert(s.subrange(i, i + 1) =~= "\""@);
        }
    }
}

/// What is quoted is what stands between the first two quotes.
pub proof fn quoted_is_between_quotes(s: Seq<char>, x: Seq<char>)
    ensures
        quoted(s) == Some(x) <==> exists|i: int, j: int| #[trigger] between_quotes(s, x, i, j),
{
    let q = "\""@;
    reveal_strlit("\"");
    find_from_facts(s, q, 0);
    assert forall|i: int| #[trigger] at(s, q, i) <==> 0 <= i < s.len() && s[i] == '"' by {
        quote_at(s, i);
    }
    match find(s, q) {
        Some(i) => {
            let rest = s.skip(i + 1);
            find_from_facts(rest, q, 0);
            assert forall|k: int| #[trigger] at(rest, q, k) <==> 0 <= k < rest.len() && rest[k] == '"' by {
                quote_at(rest, k);
            }
            assert forall|k: int| 0 <= k < i implies #[trigger] s[k] != '"' by {
                assert(!at(s, q, k));
            }
            match find(rest, q) {
                Some(m) => {
                    let j = i + 1 + m;
                    assert(at(rest, q, m));
                    assert(s[j] == rest[m]);
                    assert forall|k: int| 0 <= k < j && k != i implies #[trigger] s[k] != '"' by {
                        if k > i {
                            assert(!at(rest, q, k - i - 1));
                            assert(rest[k - i - 1] == s[k]);
                        }
                    }
                    assert(rest.take(m) =~= s.subrange(i + 1, j));
                    assert(between_quotes(s, rest.take(m), i, j));
                    if exists|a: int, b: int| #[trigger] between_quotes(s, x, a, b) {
                        let (a, b) = choose|a: int, b: int| #[trigger] between_quotes(s, x, a, b);
                        if b < j {
                            assert(s[a] != '"' || s[b] != '"');
                        } else {
                            assert(a == i) by {
                                if a != i {
                                    assert(s[i] != '"');
                                }
                            }
                            if j < b {
                                assert(s[j] != '"');
                            }
                        }
                    }
                },
                None => {
                    if exists|a: int, b: int| #[trigger] between_quotes(s, x, a, b) {
                        let (a, b) = choose|a: int, b: int| #[trigger] between_quotes(s, x, a, b);
                        assert(a >= i && b > i);
                        assert(rest[b - i - 1] == s[b]);
                        assert(at(rest, q, b - i - 1));
                    }
                },
            }
        },
        None => {
            if exists|a: int, b: int| #[trigger] between_quotes(s, x, a, b) {
                let (a, b) = choose|a: int, b: int| #[trigger] between_quotes(s, x, a, b);
                assert(at(s, q, a));
            }
        },
    }
}

/// The name that an attribute gives is what is quoted behind the first `name` in `#[pyo3(..`.
pub proof fn attributes_give_names(t: Seq<char>, x: Seq<char>, k: int)
    requires
        starts(t, seq!['#', '[', 'p', 'y', 'o', '3', '(']),
        at(t, seq!['n', 'a', 'm', 'e'], k),
        k >= 7,
        forall|j: int| 7 <= j < k ==> !#[trigger] at(t, "name"@, j),
    ensures
        given_name(t) == Some(x) <==> quoted(t.skip(k + 4)) == Some(x),
{
    reveal_strlit("#[pyo3(");
    reveal_strlit("name");
    assert("#[pyo3("@ =~= seq!['#', '[', 'p', 'y', 'o', '3', '(']);
    assert("name"@ =~= seq!['n', 'a', 'm', 'e']);
    let rest = t.skip(7);
    find_from_facts(rest, "name"@, 0);
    at_behind(t, "name"@, 7, k - 7);
    let i = find(rest, "name"@)->0;
    if i < k - 7 {
        at_behind(t, "name"@, 7, i);
        assert(at(t, "name"@, 7 + i));
    } else if k - 7 < i {
        assert(!at(rest, "name"@, k - 7));
    }
    assert(rest.skip(i + 4) =~= t.skip(k + 4));
}

/// Whether a line neither announces an export nor gives one a name.
pub open spec fn ordinary(line: Seq<char>) -> bool {
    &&& forall|kind: ExportKind| !announces(line, kind)
    &&& given_name(trimmed_start(line)) is None
}

/// Whether line `a` announced the kind of export that is still to be completed at line `n`: no line
/// between them announces another, and none of them holds an item of that kind.
pub open spec fn awaits(ls: Seq<Seq<char>>, kind: ExportKind, a: int, n: int) -> bool {
    &&& 0 <= a < n <= ls.len()
    &&& announces(ls[a], kind)
    &&& forall|j: int|
        a < j < n ==> (forall|other: ExportKind| !announces(ls[j], other)) && (given_name(
            trimmed_start(ls[j]),
        ) is Some || #[trigger] defined_item(trimmed_start(ls[j]), kind) is None)
}

proof fn announced_some(line: Seq<char>)
    ensures
        announced(trimmed_start(line)) is Some <==> exists|kind: ExportKind| announces(line, kind),
{
    announces_is(line, ExportKind::Function);
    announces_is(line, ExportKind::Class);
    announces_is(line, ExportKind::Module);
    if announced(trimmed_start(line)) is Some {
        let k = announced(trimmed_start(line))->0;
        assert(announces(line, k));
    }
}

proof fn awaited(ls: Seq<Seq<char>>, kind: ExportKind, n: int)
    requires
        0 <= n <= ls.len(),
    ensures
        pending_at(ls, n).kind == Some(kind) <==> exists|a: int| #[trigger] awaits(ls, kind, a, n),
    decreases n,
{
    if n > 0 {
        awaited(ls, kind, n - 1);
        let line = ls[n - 1];
        let t = trimmed_start(line);
        let p = pending_at(ls, n - 1);
        announces_is(line, kind);
        announced_some(line);
        if announced(t) is Some {
            if announced(t) == Some(kind) {
                assert(awaits(ls, kind, n - 1, n));
            }
            if exists|a: int| #[trigger] awaits(ls, kind, a, n) {
                let a = choose|a: int| #[trigger] awaits(ls, kind, a, n);
                if a < n - 1 {
                    let d = defined_item(trimmed_start(ls[n - 1]), kind);
                    assert(forall|other: ExportKind| !announces(line, other));
                }
            }
        } else {
            if pending_at(ls, n).kind == Some(kind) {
                assert(p.kind == Some(kind));
                let a = choose|a: int| #[trigger] awaits(ls, kind, a, n - 1);
                assert(awaits(ls, kind, a, n));
            }
            if exists|a: int| #[trigger] awaits(ls, kind, a, n) {
                let a = choose|a: int| #[trigger] awaits(ls, kind, a, n);
                assert(a < n - 1);
                let d = defined_item(trimmed_start(ls[n - 1]), kind);
                assert(awaits(ls, kind, a, n - 1));
            }
        }
    } else if exists|a: int| #[trigger] awaits(ls, kind, a, n) {
        let a = choose|a: int| #[trigger] awaits(ls, kind, a, n);
    }
}

/// Whether line `i` completes an export of a kind with an item of its own name: it is ordinary, it
/// holds such an item, and an export of the kind is announced and still to be completed.
pub open spec fn completes(ls: Seq<Seq<char>>, kind: ExportKind, own: Seq<char>, i: int) -> bool {
    &&& 0 <= i < ls.len()
    &&& ordinary(ls[i])
    &&& defined_item(trimmed_start(ls[i]), kind) == Some(own)
    &&& exists|a: int| #[trigger] awaits(ls, kind, a, i)
}

proof fn completes_is(ls: Seq<Seq<char>>, i: int)
    requires
        0 <= i < ls.len(),
    ensures
        completed(pending_at(ls, i), ls[i]) is Some <==> exists|kind: ExportKind, own: Seq<char>| #[trigger]
            completes(ls, kind, own, i),
        forall|kind: ExportKind, own: Seq<char>| #[trigger]
            completes(ls, kind, own, i) ==> {
                let c = completed(pending_at(ls, i), ls[i]);
                c is Some && (c->0).1 == kind && (c->0).0 == match pending_at(ls, i).name {
                    Some(given) => given,
                    None => own,
                }
            },
{
    let p = pending_at(ls, i);
    announced_some(ls[i]);
    assert forall|kind: ExportKind, own: Seq<char>| #[trigger] completes(ls, kind, own, i) implies {
        let c = completed(pending_at(ls, i), ls[i]);
        c is Some && (c->0).1 == kind && (c->0).0 == match pending_at(ls, i).name {
            Some(given) => given,
            None => own,
        }
    } by {
        awaited(ls, kind, i);
    }
    if completed(p, ls[i]) is Some {
        let kind = p.kind->0;
        awaited(ls, kind, i);
        let own = defined_item(trimmed_start(ls[i]), kind)->0;
        assert(ordinary(ls[i]));
        assert(completes(ls, kind, own, i));
    }
}

/// Whether some line completes an export.
pub open spec fn completes_some(ls: Seq<Seq<char>>, i: int) -> bool {
    exists|kind: ExportKind, own: Seq<char>| #[trigger] completes(ls, kind, own, i)
}

/// Whether line `g` gave the name that the next export gets at line `n`: no line between them gives
/// another, and none of them completes an export.
pub open spec fn renames(ls: Seq<Seq<char>>, x: Seq<char>, g: int, n: int) -> bool {
    &&& 0 <= g < n <= ls.len()
    &&& gives(ls[g], x)
    &&& forall|j: int| g < j < n ==> #[trigger] leaves_names(ls, j)
}

/// Whether a line neither completes an export nor gives a name to one.
pub open spec fn leaves_names(ls: Seq<Seq<char>>, j: int) -> bool {
    !completes_some(ls, j) && forall|y: Seq<char>| !gives(ls[j], y)
}

/// Whether a line gives a name to an export and announces none.
pub open spec fn gives(line: Seq<char>, x: Seq<char>) -> bool {
    &&& forall|kind: ExportKind| !announces(line, kind)
    &&& given_name(trimmed_start(line)) == Some(x)
}

proof fn renamed(ls: Seq<Seq<char>>, x: Seq<char>, n: int)
    requires
        0 <= n <= ls.len(),
    ensures
        pending_at(ls, n).name == Some(x) <==> exists|g: int| #[trigger] renames(ls, x, g, n),
    decreases n,
{
    if n > 0 {
        renamed(ls, x, n - 1);
        let line = ls[n - 1];
        let t = trimmed_start(line);
        let p = pending_at(ls, n - 1);
        announced_some(line);
        completes_is(ls, n - 1);
        if announced(t) is None && given_name(t) is Some {
            assert(gives(line, given_name(t)->0));
            if given_name(t) == Some(x) {
                assert(renames(ls, x, n - 1, n));
            }
            if exists|g: int| #[trigger] renames(ls, x, g, n) {
                let g = choose|g: int| #[trigger] renames(ls, x, g, n);
                if g < n - 1 {
                    assert(leaves_names(ls, n - 1));
                    assert(forall|y: Seq<char>| !gives(line, y));
                }
            }
        } else {
            assert(forall|y: Seq<char>| !gives(line, y));
            if pending_at(ls, n).name == Some(x) {
                assert(pending_at(ls, n) == pending_after(p, line));
                assert(p.name == Some(x));
                let g = choose|g: int| #[trigger] renames(ls, x, g, n - 1);
                assert(!completes_some(ls, n - 1));
                assert(leaves_names(ls, n - 1));
                assert(renames(ls, x, g, n));
            }
            if exists|g: int| #[trigger] renames(ls, x, g, n) {
                let g = choose|g: int| #[trigger] renames(ls, x, g, n);
                assert(g < n - 1);
                assert(renames(ls, x, g, n - 1));
                assert(leaves_names(ls, n - 1));
            }
        }
    } else if exists|g: int| #[trigger] renames(ls, x, g, n) {
        let g = choose|g: int| #[trigger] renames(ls, x, g, n);
    }
}

/// Whether an export is that of line `i`: the line completes it, and its name is the one that was
/// given to it, or else that of the item.
pub open spec fn export_at(
    ls: Seq<Seq<char>>,
    file: Seq<char>,
    e: ExportView,
    own: Seq<char>,
    i: int,
) -> bool {
    &&& completes(ls, e.kind, own, i)
    &&& e.file == file
    &&& e.line == i + 1
    &&& e.module is None
    &&& (exists|g: int| #[trigger] renames(ls, e.py_name, g, i)) || (e.py_name == own && forall|
        x: Seq<char>,
        g: int,
    | !#[trigger] renames(ls, x, g, i))
}

/// A file exports what its lines complete, and nothing else: an announced item under its own name, or
/// under the name that an attribute gave it.
pub proof fn announced_items_are_exported(text: Seq<char>, file: Seq<char>, e: ExportView)
    ensures
        exports_of(text, file).contains(e) <==> exists|own: Seq<char>, i: int| #[trigger]
            export_at(lines_of(text), file, e, own, i),
{
    let ls = lines_of(text);
    let f = export_on(ls, file);
    let n = ls.len() as int;
    gather_contains(n, f, e);
    if exports_of(text, file).contains(e) {
        let i = choose|i: int| 0 <= i < n && (#[trigger] f(i)).contains(e);
        let found = f(i);
        let k = choose|k: int| 0 <= k < found.len() && found[k] == e;
        completes_is(ls, i);
        let (kind, own) = choose|kind: ExportKind, own: Seq<char>| #[trigger]
            completes(ls, kind, own, i);
        assert forall|x: Seq<char>, g: int| #[trigger] renames(ls, x, g, i) implies pending_at(
            ls,
            i,
        ).name == Some(x) by {
            renamed(ls, x, i);
        }
        renamed(ls, e.py_name, i);
        if pending_at(ls, i).name is Some {
            assert(pending_at(ls, i).name == Some(e.py_name));
        }
        assert(export_at(ls, file, e, own, i));
    }
    if exists|own: Seq<char>, i: int| #[trigger] export_at(ls, file, e, own, i) {
        let (own, i) = choose|own: Seq<char>, i: int| #[trigger] export_at(ls, file, e, own, i);
        completes_is(ls, i);
        assert(completes(ls, e.kind, own, i));
        if exists|g: int| #[trigger] renames(ls, e.py_name, g, i) {
            renamed(ls, e.py_name, i);
        } else {
            match pending_at(ls, i).name {
                Some(x) => {
                    renamed(ls, x, i);
                },
                None => {},
            }
        }
        assert(f(i)[0] == e);
        assert(f(i).contains(e));
    }
}

// ── joining ────────────────────────────────────────────────────────────────────────────

/// Whether the export at a position is the first of a module under a name.
pub open spec fn first_module(es: Seq<ExportView>, name: Seq<char>, k: int) -> bool {
    &&& 0 <= k < es.len()
    &&& es[k].kind == ExportKind::Module
    &&& es[k].py_name == name
    &&& forall|j: int|
        0 <= j < k ==> !((#[trigger] es[j]).kind == ExportKind::Module && es[j].py_name == name)
}

proof fn home_on(es: Seq<ExportView>, name: Seq<char>, i: int)
    requires
        0 <= i <= es.len(),
        forall|j: int|
            0 <= j < i ==> !((#[trigger] es[j]).kind == ExportKind::Module && es[j].py_name == name),
    ensures
        match module_home_from(es, name, i) {
            Some(f) => exists|k: int| #[trigger] first_module(es, name, k) && es[k].file == f,
            None => forall|k: int| !#[trigger] first_module(es, name, k),
        },
    decreases es.len() - i,
{
    if i < es.len() {
        if es[i].kind == ExportKind::Module && es[i].py_name == name {
            assert(first_module(es, name, i));
        } else {
            home_on(es, name, i + 1);
        }
    } else {
        assert forall|k: int| !#[trigger] first_module(es, name, k) by {
            if first_module(es, name, k) {
                assert(es[k].kind == ExportKind::Module);
            }
        }
    }
}

/// An import is joined with the first file that exports a module of its name: under the last part of
/// the name where one does, or else under the whole of it.
pub proof fn imports_join_the_first_export(es: Seq<ExportView>, m: ImportView)
    ensures
        ({
            let last = parts(m.module, '.').last();
            let js = joined_import(es, m);
            &&& forall|k: int| #[trigger]
                first_module(es, last, k) ==> js.len() == 1 && js[0].module == last && js[0].rust_file
                    == es[k].file
            &&& (forall|k: int| !#[trigger] first_module(es, last, k)) ==> {
                &&& forall|k: int| #[trigger]
                    first_module(es, m.module, k) ==> js.len() == 1 && js[0].module == m.module
                        && js[0].rust_file == es[k].file
                &&& (forall|k: int| !#[trigger] first_module(es, m.module, k)) ==> js.len() == 0
            }
            &&& js.len() == 1 ==> js[0].py_file == m.file && js[0].py_line == m.line && js[0].names
                == m.names
        }),
{
    let last = parts(m.module, '.').last();
    home_on(es, last, 0);
    home_on(es, m.module, 0);
    first_is_one(es, last);
    first_is_one(es, m.module);
}

proof fn first_is_one(es: Seq<ExportView>, name: Seq<char>)
    ensures
        forall|k: int, l: int| #[trigger]
            first_module(es, name, k) && #[trigger] first_module(es, name, l) ==> k == l,
{
    assert forall|k: int, l: int| #[trigger]
        first_module(es, name, k) && #[trigger] first_module(es, name, l) implies k == l by {
        if k < l {
            assert(es[k].kind == ExportKind::Module);
        } else if l < k {
            assert(es[l].kind == ExportKind::Module);
        }
    }
}

// ── imports ────────────────────────────────────────────────────────────────────────────

/// The names that a list takes out of a module are its parts between commas, without the names that
/// they get and without whitespace, but for empty ones and for the star.
pub proof fn lists_take_names(list: Seq<char>, x: Seq<char>)
    requires
        list.len() > 0,
        list[0] != '(',
        list.last() != ')',
    ensures
        taken_names(list).contains(x) <==> x.len() > 0 && x != seq!['*'] && exists|
            part: Seq<char>,
            a: int,
            b: int,
        | #[trigger]
            crate::laws::lines::piece_at(list, ',', part, a, b) && imported_name(part) == x,
{
    reveal_strlit("*");
    assert("*"@ =~= seq!['*']);
    crate::text::span_from_bounds(list, Class::Is('('), 0);
    crate::text::back_from_bounds(list, Class::Is(')'), list.len() as int);
    let s = span_from(list, Class::Is('('), 0);
    if s > 0 {
        assert(crate::text::in_class(Class::Is('('), list[0]));
    }
    assert(list.skip(0) =~= list);
    let e = crate::text::back_from(list, Class::Is(')'), list.len() as int);
    if e < list.len() {
        assert(crate::text::in_class(Class::Is(')'), list[list.len() - 1]));
    }
    assert(list.take(list.len() as int) =~= list);
    let ps = parts(list, ',');
    let f = taken_name(ps);
    gather_contains(ps.len() as int, f, x);
    if taken_names(list).contains(x) {
        let i = choose|i: int| 0 <= i < ps.len() && (#[trigger] f(i)).contains(x);
        let found = f(i);
        let k = choose|k: int| 0 <= k < found.len() && found[k] == x;
        assert(ps.contains(ps[i]));
        parts_stand_between(list, ',', ps[i]);
        let (a, b) = choose|a: int, b: int| #[trigger]
            crate::laws::lines::piece_at(list, ',', ps[i], a, b);
        assert(crate::laws::lines::piece_at(list, ',', ps[i], a, b));
    }
    if x.len() > 0 && x != "*"@ && exists|part: Seq<char>, a: int, b: int| #[trigger]
        crate::laws::lines::piece_at(list, ',', part, a, b) && imported_name(part) == x {
        let (part, a, b) = choose|part: Seq<char>, a: int, b: int| #[trigger]
            crate::laws::lines::piece_at(list, ',', part, a, b) && imported_name(part) == x;
        parts_stand_between(list, ',', part);
        let i = choose|i: int| 0 <= i < ps.len() && ps[i] == part;
        assert(f(i)[0] == x);
        assert(f(i).contains(x));
    }
}

/// A line `from M import L` imports the module `M`, with the names that `L` lists.
pub proof fn from_lines_import_names(
    module: Seq<char>,
    list: Seq<char>,
    file: Seq<char>,
    number: int,
)
    requires
        module.len() > 0,
        list.len() > 0,
        !white(list.last()),
        forall|j: int| 0 <= j < module.len() ==> !white(#[trigger] module[j]),
    ensures
        line_imports("from "@ + (module + (" import "@ + list)), file, number) == seq![
            ImportView { module, names: taken_names(list), file, line: number },
        ],
{
    let f = "from "@;
    reveal_strlit("from ");
    reveal_strlit(" import ");
    let rest = module + (" import "@ + list);
    let line = f + rest;
    assert(line[0] == 'f');
    assert(line.last() == list.last());
    untrimmed(line);
    assert(line.subrange(0, 5) =~= f);
    assert(line.skip(5) =~= rest);
    cut_at_import(module, list);
    let n = module.len() as int;
    assert(!white(module[0]) && !white(module[n - 1]));
    untrimmed(module);
}

proof fn cut_at_import(module: Seq<char>, list: Seq<char>)
    requires
        forall|j: int| 0 <= j < module.len() ==> !white(#[trigger] module[j]),
    ensures
        cut(module + (" import "@ + list), " import "@) == Some((module, list)),
{
    let i = " import "@;
    reveal_strlit(" import ");
    let rest = module + (i + list);
    let n = module.len() as int;
    find_from_facts(rest, i, 0);
    assert(rest.subrange(n, n + 8) =~= i);
    assert(at(rest, i, n));
    let k = find(rest, i)->0;
    if k < n {
        assert(rest.subrange(k, k + 8)[0] == rest[k]);
        assert(rest[k] == module[k]);
        assert(!white(module[k]));
    } else if n < k {
        assert(!at(rest, i, n));
    }
    assert(rest.take(n) =~= module);
    assert(rest.skip(n + 8) =~= list);
}

proof fn whole_modules(list: Seq<char>, file: Seq<char>, number: int, x: ImportView)
    ensures
        gather(parts(list, ',').len() as int, whole_module(parts(list, ','), file, number)).contains(x)
            <==> x.module.len() > 0 && x.names =~= seq![] && x.file == file && x.line == number
            && exists|part: Seq<char>, a: int, b: int| #[trigger]
            crate::laws::lines::piece_at(list, ',', part, a, b) && imported_name(part) == x.module,
{
    let ps = parts(list, ',');
    let w = whole_module(ps, file, number);
    gather_contains(ps.len() as int, w, x);
    if gather(ps.len() as int, w).contains(x) {
        let q = choose|q: int| 0 <= q < ps.len() && (#[trigger] w(q)).contains(x);
        let found = w(q);
        let j = choose|j: int| 0 <= j < found.len() && found[j] == x;
        assert(ps.contains(ps[q]));
        parts_stand_between(list, ',', ps[q]);
        let (a, b) = choose|a: int, b: int| #[trigger]
            crate::laws::lines::piece_at(list, ',', ps[q], a, b);
        assert(crate::laws::lines::piece_at(list, ',', ps[q], a, b));
    }
    if x.module.len() > 0 && x.names =~= seq![] && x.file == file && x.line == number && exists|
        part: Seq<char>,
        a: int,
        b: int,
    | #[trigger]
        crate::laws::lines::piece_at(list, ',', part, a, b) && imported_name(part) == x.module {
        let (part, a, b) = choose|part: Seq<char>, a: int, b: int| #[trigger]
            crate::laws::lines::piece_at(list, ',', part, a, b) && imported_name(part) == x.module;
        parts_stand_between(list, ',', part);
        let q = choose|q: int| 0 <= q < ps.len() && ps[q] == part;
        assert(w(q)[0] == x);
        assert(w(q).contains(x));
    }
}

/// A line `import L` imports each module that `L` lists between commas, whole and without the name
/// that it gets.
pub proof fn import_lines_import_modules(
    list: Seq<char>,
    file: Seq<char>,
    number: int,
    x: ImportView,
)
    requires
        list.len() > 0,
        !white(list.last()),
    ensures
        line_imports("import "@ + list, file, number).contains(x) <==> x.module.len() > 0 && x.names
            =~= seq![] && x.file == file && x.line == number && exists|
            part: Seq<char>,
            a: int,
            b: int,
        | #[trigger]
            crate::laws::lines::piece_at(list, ',', part, a, b) && imported_name(part) == x.module,
{
    let g = "import "@;
    reveal_strlit("from ");
    reveal_strlit("import ");
    let other = g + list;
    assert(other[0] == 'i');
    assert(other.last() == list.last());
    untrimmed(other);
    assert(other.subrange(0, 7) =~= g);
    if starts(other, "from "@) {
        apart_at(other, "from "@, g, 0);
    }
    assert(other.skip(7) =~= list);
    whole_modules(list, file, number, x);
}

/// What is imported comes before the first ` as `, if there is any, and has no whitespace around it.
pub proof fn names_given_to_imports_do_not_count(name: Seq<char>, other: Seq<char>)
    requires
        name.len() > 0,
        forall|j: int| 0 <= j < name.len() ==> !white(#[trigger] name[j]),
    ensures
        imported_name(name + (" as "@ + other)) == name,
        imported_name(name) == name,
        imported_name(seq![' '] + name) == name,
{
    let p = " as "@;
    reveal_strlit(" as ");
    let n = name.len() as int;
    assert(!white(name[0]) && !white(name[n - 1]));
    untrimmed(name);
    let s = name + (p + other);
    find_from_facts(s, p, 0);
    assert(s.subrange(n, n + 4) =~= p);
    assert(at(s, p, n));
    let k = find(s, p)->0;
    if k < n {
        assert(s.subrange(k, k + 4)[0] == s[k]);
        assert(s[k] == name[k]);
        assert(!white(name[k]));
    } else if n < k {
        assert(!at(s, p, n));
    }
    assert(s.take(n) =~= name);
    unsplit(name);
    let t = seq![' '] + name;
    find_from_facts(t, p, 0);
    if find(t, p) is Some {
        let i = find(t, p)->0;
        assert(t.subrange(i, i + 4)[3] == t[i + 3]);
        assert(t[i + 3] == name[i + 2]);
        assert(!white(name[i + 2]));
    }
    blanks_end(t);
    assert(white(t[0]));
    assert(t[1] == name[0]);
    let w = span_from(t, Class::White, 0);
    if w == 0 {
        assert(white(t[w]));
    } else if w > 1 {
        assert(white(t[1]));
    }
    assert(t.skip(1) =~= name);
}

proof fn unsplit(name: Seq<char>)
    requires
        forall|j: int| 0 <= j < name.len() ==> !white(#[trigger] name[j]),
    ensures
        find(name, " as "@) is None,
{
    let p = " as "@;
    reveal_strlit(" as ");
    find_from_facts(name, p, 0);
    if find(name, p) is Some {
        let i = find(name, p)->0;
        assert(name.subrange(i, i + 4)[0] == name[i]);
        assert(!white(name[i]));
    }
}

/// A file in Python imports what its lines import, each under its number.
pub proof fn imports_are_those_of_the_lines(text: Seq<char>, file: Seq<char>, m: ImportView)
    ensures
        imports_of(text, file).contains(m) <==> exists|i: int|
            0 <= i < lines_of(text).len() && line_imports(
                #[trigger] lines_of(text)[i],
                file,
                i + 1,
            ).contains(m),
{
    let ls = lines_of(text);
    let f = import_on(ls, file);
    let n = ls.len() as int;
    gather_contains(n, f, m);
    if imports_of(text, file).contains(m) {
        let i = choose|i: int| 0 <= i < n && (#[trigger] f(i)).contains(m);
        assert(line_imports(lines_of(text)[i], file, i + 1).contains(m));
    }
    if exists|i: int|
        0 <= i < lines_of(text).len() && line_imports(
            #[trigger] lines_of(text)[i],
            file,
            i + 1,
        ).contains(m) {
        let i = choose|i: int|
            0 <= i < lines_of(text).len() && line_imports(
                #[trigger] lines_of(text)[i],
                file,
                i + 1,
            ).contains(m);
        assert(f(i).contains(m));
    }
}

/// Exports are looked for in files whose extension is `rs`, and imports in those whose extension is
/// `py`.
pub proof fn files_are_scanned_by_extension(
    files: Seq<(String, String)>,
    e: ExportView,
    m: ImportView,
)
    ensures
        gather(files.len() as int, file_exports(files)).contains(e) <==> exists|i: int|
            0 <= i < files.len() && extension_of((#[trigger] files[i]).0@) == Some(seq!['r', 's'])
                && exports_of(files[i].1@, files[i].0@).contains(e),
        gather(files.len() as int, file_imports(files)).contains(m) <==> exists|i: int|
            0 <= i < files.len() && extension_of((#[trigger] files[i]).0@) == Some(seq!['p', 'y'])
                && imports_of(files[i].1@, files[i].0@).contains(m),
{
    reveal_strlit("rs");
    reveal_strlit("py");
    assert("rs"@ =~= seq!['r', 's']);
    assert("py"@ =~= seq!['p', 'y']);
    let n = files.len() as int;
    let f = file_exports(files);
    let g = file_imports(files);
    gather_contains(n, f, e);
    gather_contains(n, g, m);
    if gather(n, f).contains(e) {
        let i = choose|i: int| 0 <= i < n && (#[trigger] f(i)).contains(e);
        assert(extension_of(files[i].0@) == Some("rs"@));
    }
    if gather(n, g).contains(m) {
        let i = choose|i: int| 0 <= i < n && (#[trigger] g(i)).contains(m);
        assert(extension_of(files[i].0@) == Some("py"@));
    }
    if exists|i: int|
        0 <= i < files.len() && extension_of((#[trigger] files[i]).0@) == Some("rs"@) && exports_of(
            files[i].1@,
            files[i].0@,
        ).contains(e) {
        let i = choose|i: int|
            0 <= i < files.len() && extension_of((#[trigger] files[i]).0@) == Some("rs"@)
                && exports_of(files[i].1@, files[i].0@).contains(e);
        assert(f(i).contains(e));
    }
    if exists|i: int|
        0 <= i < files.len() && extension_of((#[trigger] files[i]).0@) == Some("py"@) && imports_of(
            files[i].1@,
            files[i].0@,
        ).contains(m) {
        let i = choose|i: int|
            0 <= i < files.len() && extension_of((#[trigger] files[i]).0@) == Some("py"@)
                && imports_of(files[i].1@, files[i].0@).contains(m);
        assert(g(i).contains(m));
    }
}

proof fn untrimmed(s: Seq<char>)
    requires
        s.len() > 0,
        !white(s[0]),
        !white(s.last()),
    ensures
        trimmed(s) == s,
        trimmed_start(s) == s,
{
    blanks_end(s);
    if span_from(s, Class::White, 0) > 0 {
        assert(white(s[0]));
    }
    assert(s.skip(0) =~= s);
    crate::text::back_from_bounds(s, Class::White, s.len() as int);
    let e = crate::text::back_from(s, Class::White, s.len() as int);
    if e < s.len() {
        assert(crate::text::in_class(Class::White, s[s.len() - 1]));
    }
    assert(s.take(s.len() as int) =~= s);
}

} // verus!
