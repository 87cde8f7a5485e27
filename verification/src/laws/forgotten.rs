//! What counts as forgotten: files that no declaration takes in, items without documentation.
use vstd::prelude::*;

use crate::finding::{FindingView, Severity};
use crate::forgotten::{
    above_attributes, attribute, begins_tests, declares_module, documentation, documented,
    forgotten, module_on, module_stem, public_item, tests_from, undocumented_finding,
    undocumented_findings, unwired_file, unwired_finding, wired_by_itself,
};
use crate::laws::lines::{at_behind, begins, begins_is_starts, blanks_end};
use crate::moves::{without_pub, without_qualifier, Workspace};
use crate::text::{
    at, concat_contains, ends, find_from_facts, gather, gather_contains, in_class, lead, lines_of,
    parts, span_from_bounds, starts, trimmed_start, Class,
};

verus! {

// ── items without documentation ────────────────────────────────────────────────────────

/// Whether a line begins the tests of a file.
pub open spec fn tests_begin(line: Seq<char>) -> bool {
    begins(line, seq!['#', '[', 'c', 'f', 'g', '(', 't', 'e', 's', 't', ')', ']'])
}

proof fn tests_begin_is(line: Seq<char>)
    ensures
        tests_begin(line) <==> begins_tests(line),
{
    reveal_strlit("#[cfg(test)]");
    assert("#[cfg(test)]"@ =~= seq!['#', '[', 'c', 'f', 'g', '(', 't', 'e', 's', 't', ')', ']']);
    begins_is_starts(line, "#[cfg(test)]"@);
}

/// Whether the tests of a file begin on line `n`, the first that does, or nowhere.
pub open spec fn tests_at(ls: Seq<Seq<char>>, n: int) -> bool {
    &&& 0 <= n <= ls.len()
    &&& forall|i: int| 0 <= i < n ==> !tests_begin(#[trigger] ls[i])
    &&& n < ls.len() ==> tests_begin(ls[n])
}

proof fn tests_on(ls: Seq<Seq<char>>, i: int)
    requires
        0 <= i <= ls.len(),
        forall|j: int| 0 <= j < i ==> !tests_begin(#[trigger] ls[j]),
    ensures
        tests_at(ls, tests_from(ls, i)),
    decreases ls.len() - i,
{
    if i < ls.len() {
        tests_begin_is(ls[i]);
        if !begins_tests(ls[i]) {
            tests_on(ls, i + 1);
        }
    }
}

/// The tests of a file begin on the first line that begins, behind whitespace, with `#[cfg(test)]`.
pub proof fn tests_begin_at_the_first(ls: Seq<Seq<char>>)
    ensures
        tests_at(ls, tests_from(ls, 0)),
{
    tests_on(ls, 0);
}

/// Whether a line begins, without whitespace before it, with `pub` and the word for an item.
pub open spec fn shows_item(line: Seq<char>) -> bool {
    ||| at(line, "pub fn "@, 0)
    ||| at(line, "pub struct "@, 0)
    ||| at(line, "pub enum "@, 0)
    ||| at(line, "pub trait "@, 0)
    ||| at(line, "pub const "@, 0)
    ||| at(line, "pub type "@, 0)
    ||| at(line, "pub static "@, 0)
    ||| at(line, "pub mod "@, 0)
}

proof fn shows_item_is(line: Seq<char>)
    ensures
        shows_item(line) <==> public_item(line),
{
    reveal_strlit(" ");
    reveal_strlit("\t");
    reveal_strlit("pub fn ");
    reveal_strlit("pub struct ");
    reveal_strlit("pub enum ");
    reveal_strlit("pub trait ");
    reveal_strlit("pub const ");
    reveal_strlit("pub type ");
    reveal_strlit("pub static ");
    reveal_strlit("pub mod ");
    if at(line, " "@, 0) {
        assert(line.subrange(0, 1)[0] == line[0]);
        assert(line[0] == ' ');
    }
    if at(line, "\t"@, 0) {
        assert(line.subrange(0, 1)[0] == line[0]);
        assert(line[0] == '\t');
    }
    if shows_item(line) {
        first_char(line, "pub fn "@);
        first_char(line, "pub struct "@);
        first_char(line, "pub enum "@);
        first_char(line, "pub trait "@);
        first_char(line, "pub const "@);
        first_char(line, "pub type "@);
        first_char(line, "pub static "@);
        first_char(line, "pub mod "@);
        assert(line[0] == 'p');
    }
}

proof fn first_char(line: Seq<char>, p: Seq<char>)
    requires
        p.len() > 0,
    ensures
        at(line, p, 0) ==> line.len() > 0 && line[0] == p[0],
{
    if at(line, p, 0) {
        assert(line.subrange(0, p.len() as int)[0] == line[0]);
    }
}

/// Whether a line is an attribute: behind whitespace it begins with `#[` or `#!`.
pub open spec fn is_attribute(line: Seq<char>) -> bool {
    begins(line, seq!['#', '[']) || begins(line, seq!['#', '!'])
}

/// Whether a line is documentation: behind whitespace it begins with `///`, `/**` or `//!`.
pub open spec fn is_documentation(line: Seq<char>) -> bool {
    begins(line, seq!['/', '/', '/']) || begins(line, seq!['/', '*', '*']) || begins(
        line,
        seq!['/', '/', '!'],
    )
}

proof fn attribute_is(line: Seq<char>)
    ensures
        is_attribute(line) <==> attribute(line),
{
    reveal_strlit("#[");
    reveal_strlit("#!");
    assert("#["@ =~= seq!['#', '[']);
    assert("#!"@ =~= seq!['#', '!']);
    begins_is_starts(line, "#["@);
    begins_is_starts(line, "#!"@);
}

proof fn documentation_is(line: Seq<char>)
    ensures
        is_documentation(line) <==> documentation(line),
{
    reveal_strlit("///");
    reveal_strlit("/**");
    reveal_strlit("//!");
    assert("///"@ =~= seq!['/', '/', '/']);
    assert("/**"@ =~= seq!['/', '*', '*']);
    assert("//!"@ =~= seq!['/', '/', '!']);
    begins_is_starts(line, "///"@);
    begins_is_starts(line, "/**"@);
    begins_is_starts(line, "//!"@);
}

/// Whether line `d` documents the item on line `i`: it comes before it, and every line between them
/// is an attribute.
pub open spec fn documents(ls: Seq<Seq<char>>, d: int, i: int) -> bool {
    &&& 0 <= d < i <= ls.len()
    &&& is_documentation(ls[d])
    &&& !is_attribute(ls[d])
    &&& forall|j: int| d < j < i ==> is_attribute(#[trigger] ls[j])
}

proof fn attributes_end(ls: Seq<Seq<char>>, j: int)
    requires
        0 <= j <= ls.len(),
    ensures
        0 <= above_attributes(ls, j) <= j,
        forall|m: int| above_attributes(ls, j) <= m < j ==> is_attribute(#[trigger] ls[m]),
        above_attributes(ls, j) > 0 ==> !is_attribute(ls[above_attributes(ls, j) - 1]),
    decreases j,
{
    if j > 0 {
        attribute_is(ls[j - 1]);
        if attribute(ls[j - 1]) {
            attributes_end(ls, j - 1);
        }
    }
}

proof fn documented_is(ls: Seq<Seq<char>>, i: int)
    requires
        0 <= i <= ls.len(),
    ensures
        documented(ls, i) <==> exists|d: int| #[trigger] documents(ls, d, i),
{
    attributes_end(ls, i);
    let j = above_attributes(ls, i);
    if j > 0 {
        documentation_is(ls[j - 1]);
        if documentation(ls[j - 1]) {
            assert(documents(ls, j - 1, i));
        }
    }
    if exists|d: int| #[trigger] documents(ls, d, i) {
        let d = choose|d: int| #[trigger] documents(ls, d, i);
        if d >= j {
            assert(is_attribute(ls[d]));
        }
        if d < j - 1 {
            assert(is_attribute(ls[j - 1]));
        }
        documentation_is(ls[d]);
    }
}

/// Whether line `i` of a file is a public item, before the tests, that nothing documents.
pub open spec fn left_undocumented(ls: Seq<Seq<char>>, i: int) -> bool {
    &&& 0 <= i < ls.len()
    &&& shows_item(ls[i])
    &&& forall|j: int| 0 <= j <= i ==> !tests_begin(#[trigger] ls[j])
    &&& forall|d: int| !#[trigger] documents(ls, d, i)
}

proof fn undocumented_is(file: Seq<char>, ls: Seq<Seq<char>>, i: int)
    requires
        0 <= i < ls.len(),
    ensures
        left_undocumented(ls, i) <==> i < tests_from(ls, 0) && (undocumented_finding(file, ls))(
            i,
        ).len() > 0,
{
    tests_on(ls, 0);
    shows_item_is(ls[i]);
    documented_is(ls, i);
    let n = tests_from(ls, 0);
    if left_undocumented(ls, i) {
        if n <= i {
            assert(!tests_begin(ls[n]));
        }
        assert(!documented(ls, i));
    }
}

/// A public item before the tests that nothing documents is reported on its line.
pub proof fn undocumented_items_are_reported(ws: Workspace, f: int, i: int)
    requires
        0 <= f < ws.files@.len(),
        left_undocumented(lines_of(ws.files@[f].1@), i),
    ensures
        exists|x: FindingView| #[trigger]
            forgotten(ws).contains(x) && x.rule == "forgotten-undoc"@ && x.severity == Severity::Info
                && x.location.file == ws.files@[f].0 && x.location.line == Some((i + 1) as u32),
{
    let ls = lines_of(ws.files@[f].1@);
    let file = ws.files@[f].0;
    undocumented_is(file, ls, i);
    let one = undocumented_finding(file, ls);
    let x = one(i)[0];
    assert(one(i).contains(x));
    gather_contains(tests_from(ls, 0), one, x);
    let all = undocumented_findings(ws);
    assert(all(f).contains(x));
    gather_contains(ws.files@.len() as int, all, x);
    concat_contains(
        gather(ws.files@.len() as int, unwired_finding(ws)),
        gather(ws.files@.len() as int, all),
        x,
    );
    assert(forgotten(ws).contains(x));
}

// ── files that no declaration takes in ─────────────────────────────────────────────────

/// Whether a line declares a module where `mod` stands at position `k`: behind it come a space, the
/// name, and nothing more that could belong to a name.
pub open spec fn names_module(line: Seq<char>, name: Seq<char>, k: int) -> bool {
    &&& at(line, seq!['m', 'o', 'd', ' '] + name, k)
    &&& name.len() > 0
    &&& forall|j: int| 0 <= j < name.len() ==> in_class(Class::Ident, #[trigger] name[j])
    &&& k + 4 + name.len() < line.len() ==> !in_class(Class::Ident, line[k + 4 + name.len()])
}

proof fn mod_is()
    ensures
        "mod "@ == seq!['m', 'o', 'd', ' '],
{
    reveal_strlit("mod ");
    assert("mod "@ =~= seq!['m', 'o', 'd', ' ']);
}

proof fn name_behind(t: Seq<char>, name: Seq<char>)
    ensures
        names_module(t, name, 0) <==> starts(t, "mod "@) && lead(t.skip(4), Class::Ident) == name
            && name.len() > 0,
{
    mod_is();
    let m = seq!['m', 'o', 'd', ' '];
    if starts(t, "mod "@) {
        let rest = t.skip(4);
        let n = crate::text::span_from(rest, Class::Ident, 0);
        span_from_bounds(rest, Class::Ident, 0);
        let got = lead(rest, Class::Ident);
        assert(t.subrange(0, 4) == m);
        assert(t.subrange(0, 4 + n) =~= m + got) by {
            assert forall|j: int| 0 <= j < 4 + n implies t.subrange(0, 4 + n)[j] == (m + got)[j] by {
                if j < 4 {
                    assert(t.subrange(0, 4)[j] == t[j]);
                } else {
                    assert(rest[j - 4] == t[j]);
                }
            }
        }
        if n < rest.len() {
            assert(rest[n] == t[n + 4]);
        }
        if names_module(t, name, 0) {
            let q = name.len() as int;
            assert(t.subrange(0, 4 + q) == m + name);
            assert forall|j: int| 0 <= j < q implies rest[j] == name[j] by {
                assert(t.subrange(0, 4 + q)[4 + j] == t[4 + j]);
                assert((m + name)[4 + j] == name[j]);
            }
            if n < q {
                assert(in_class(Class::Ident, name[n]));
            } else if q < n {
                assert(in_class(Class::Ident, rest[q]));
            }
            assert(got =~= name);
        }
        if got == name && name.len() > 0 {
            assert forall|j: int| 0 <= j < name.len() implies in_class(
                Class::Ident,
                #[trigger] name[j],
            ) by {
                assert(in_class(Class::Ident, rest[j]));
            }
            assert(names_module(t, name, 0));
        }
    } else if names_module(t, name, 0) {
        assert(t.subrange(0, 4) =~= m) by {
            assert forall|j: int| 0 <= j < 4 implies t.subrange(0, 4)[j] == m[j] by {
                assert(t.subrange(0, 4 + name.len() as int)[j] == t[j]);
                assert((m + name)[j] == m[j]);
            }
        }
    }
}

/// Whether what comes before position `k` of a line is a visibility: whitespace, or whitespace,
/// `pub`, whitespace, and perhaps a qualifier in brackets and whitespace.
pub open spec fn visibility_upto(line: Seq<char>, k: int) -> bool {
    &&& 0 <= k <= line.len()
    &&& line.skip(k) == without_qualifier(without_pub(trimmed_start(line)))
}

proof fn moved_names(line: Seq<char>, name: Seq<char>, k: int)
    requires
        0 <= k <= line.len(),
    ensures
        names_module(line, name, k) <==> names_module(line.skip(k), name, 0),
{
    at_behind(line, seq!['m', 'o', 'd', ' '] + name, k, 0);
}

proof fn some_suffix(s: Seq<char>) -> (k: int)
    ensures
        visibility_upto(s, k),
{
    let w = crate::text::span_from(s, Class::White, 0);
    blanks_end(s);
    span_from_bounds(s, Class::White, 0);
    let t = trimmed_start(s);
    let pub_rest = t.skip(3);
    reveal_strlit("pub");
    let a = if starts(t, "pub"@) {
        blanks_end(pub_rest);
        span_from_bounds(pub_rest, Class::White, 0);
        3 + crate::text::span_from(pub_rest, Class::White, 0)
    } else {
        0
    };
    let u = without_pub(t);
    assert(u =~= s.skip(w + a));
    find_from_facts(u, ")"@, 0);
    let b = match crate::text::find(u, ")"@) {
        Some(i) => if starts(u, "("@) {
            reveal_strlit(")");
            blanks_end(u.skip(i + 1));
            span_from_bounds(u.skip(i + 1), Class::White, 0);
            i + 1 + crate::text::span_from(u.skip(i + 1), Class::White, 0)
        } else {
            0
        },
        None => 0,
    };
    assert(without_qualifier(u) =~= s.skip(w + a + b));
    w + a + b
}

/// A line declares a module if and only if, behind a visibility, `mod` and the name of the module
/// stand in it.
pub proof fn declaring_lines(line: Seq<char>, name: Seq<char>)
    ensures
        module_on(line) == Some(name) <==> exists|k: int| #[trigger]
            visibility_upto(line, k) && names_module(line, name, k),
{
    let t = without_qualifier(without_pub(trimmed_start(line)));
    name_behind(t, name);
    mod_is();
    let k = some_suffix(line);
    moved_names(line, name, k);
    if exists|k: int| #[trigger] visibility_upto(line, k) && names_module(line, name, k) {
        let m = choose|m: int| #[trigger] visibility_upto(line, m) && names_module(line, name, m);
        moved_names(line, name, m);
    }
}

/// A line that begins, behind whitespace, with `mod` or `pub mod` and the name of a module declares
/// it.
pub proof fn plain_declarations(line: Seq<char>, name: Seq<char>, w: int)
    requires
        crate::laws::lines::blank_upto(line, w),
        names_module(line, name, w) || (at(line, seq!['p', 'u', 'b', ' '], w) && names_module(
            line,
            name,
            w + 4,
        )),
    ensures
        module_on(line) == Some(name),
{
    let v = crate::text::span_from(line, Class::White, 0);
    blanks_end(line);
    let m = seq!['m', 'o', 'd', ' '] + name;
    let p = seq!['p', 'u', 'b', ' '];
    if at(line, m, w) {
        assert(line.subrange(w, w + m.len())[0] == line[w]);
        assert(m[0] == 'm');
    } else {
        assert(line.subrange(w, w + 4)[0] == line[w]);
    }
    if w < v {
        assert(crate::text::white(line[w]));
    } else if v < w {
        assert(crate::text::white(line[v]));
    }
    assert(v == w);
    let t = trimmed_start(line);
    reveal_strlit("pub");
    reveal_strlit("(");
    mod_is();
    if names_module(line, name, w) {
        moved_names(line, name, w);
        assert(t.subrange(0, m.len() as int)[0] == t[0]);
        assert(t[0] == 'm');
        first_char(t, "pub"@);
        assert(without_pub(t) == t);
        first_char(t, "("@);
        name_behind(t, name);
    } else {
        assert forall|j: int| 0 <= j < 4 implies line[w + j] == #[trigger] p[j] by {
            assert(line.subrange(w, w + 4)[j] == line[w + j]);
        }
        assert(p[0] == 'p' && p[1] == 'u' && p[2] == 'b' && p[3] == ' ');
        assert(t[0] == line[w + 0] && t[1] == line[w + 1] && t[2] == line[w + 2] && t[3] == line[w
            + 3]);
        assert(t.subrange(0, 3) =~= "pub"@);
        assert(starts(t, "pub"@));
        let r = t.skip(3);
        assert(r[0] == ' ');
        moved_names(line, name, w + 4);
        assert(at(line, m, w + 4));
        assert(line.subrange(w + 4, w + 4 + m.len())[0] == line[w + 4]);
        assert(m[0] == 'm');
        assert(r[1] == line[w + 4]);
        blanks_end(r);
        let q = crate::text::span_from(r, Class::White, 0);
        if q > 1 {
            assert(crate::text::white(r[1]));
        }
        assert(q == 1);
        let u = without_pub(t);
        assert(u =~= line.skip(w + 4));
        assert(u[0] == 'm');
        first_char(u, "("@);
        name_behind(u, name);
    }
}

/// Whether some line of some file declares a module.
pub open spec fn taken_in(ws: Workspace, name: Seq<char>) -> bool {
    exists|f: int, i: int|
        {
            let ls = lines_of(ws.files@[f].1@);
            0 <= f < ws.files@.len() && 0 <= i < ls.len() && module_on(
                #[trigger] lines_of(ws.files@[f].1@)[i],
            ) == Some(name)
        }
}

proof fn taken_in_is(ws: Workspace, name: Seq<char>)
    ensures
        taken_in(ws, name) <==> crate::forgotten::declared(ws, name),
{
    if crate::forgotten::declared(ws, name) {
        let f = choose|f: int|
            0 <= f < ws.files@.len() && declares_module((#[trigger] ws.files@[f]).1@, name);
        let ls = lines_of(ws.files@[f].1@);
        let i = choose|i: int| 0 <= i < ls.len() && module_on(#[trigger] ls[i]) == Some(name);
        assert(module_on(lines_of(ws.files@[f].1@)[i]) == Some(name));
    }
    if taken_in(ws, name) {
        let (f, i) = choose|f: int, i: int|
            {
                let ls = lines_of(ws.files@[f].1@);
                0 <= f < ws.files@.len() && 0 <= i < ls.len() && module_on(
                    #[trigger] lines_of(ws.files@[f].1@)[i],
                ) == Some(name)
            };
        assert(declares_module(ws.files@[f].1@, name));
    }
}

/// Whether a file is looked for among the declarations: a Rust file below `src`, not below `bin`,
/// `examples`, `benches` or `tests`, and not named `lib`, `main`, `mod` or `build`.
pub open spec fn wants_declaration(rel: Seq<char>) -> bool {
    let c = parts(rel, '/');
    &&& at(rel, seq!['.', 'r', 's'], rel.len() - 3)
    &&& c.contains("src"@)
    &&& !c.contains("bin"@)
    &&& !c.contains("examples"@)
    &&& !c.contains("benches"@)
    &&& !c.contains("tests"@)
    &&& c.last() != "lib.rs"@
    &&& c.last() != "main.rs"@
    &&& c.last() != "mod.rs"@
    &&& c.last() != "build.rs"@
}

proof fn stem_is(last: Seq<char>, word: Seq<char>, full: Seq<char>)
    requires
        full == word + ".rs"@,
        ends(last, ".rs"@),
    ensures
        last.take(last.len() - 3) == word <==> last == full,
{
    reveal_strlit(".rs");
    let n = last.len() as int;
    assert(last.subrange(n - 3, n) == ".rs"@);
    assert(last =~= last.take(n - 3) + last.subrange(n - 3, n));
    if last == full {
        assert(last.take(n - 3) =~= word);
    }
}

proof fn last_part_ends(rel: Seq<char>)
    requires
        ends(rel, ".rs"@),
    ensures
        ends(parts(rel, '/').last(), ".rs"@),
{
    crate::text::parts_nonempty(rel, '/', 0);
    last_is_the_end(rel, 0);
    reveal_strlit(".rs");
    let l = parts(rel, '/').last();
    let n = rel.len() as int;
    assert forall|j: int| 0 <= j < 3 implies rel[n - 3 + j] == ".rs"@[j] by {
        assert(rel.subrange(n - 3, n)[j] == rel[n - 3 + j]);
    }
    let k = choose|k: int|
        0 <= k <= n && #[trigger] rel.skip(k) == l && (k > 0 ==> rel[k - 1] == '/');
    if k > n - 3 {
        assert(rel[k - 1] == ".rs"@[k - 1 - (n - 3)]);
    }
    assert(l.subrange(l.len() - 3, l.len() as int) =~= ".rs"@) by {
        assert forall|j: int| 0 <= j < 3 implies l.subrange(l.len() - 3, l.len() as int)[j]
            == ".rs"@[j] by {
            assert(l[l.len() - 3 + j] == rel[n - 3 + j]);
        }
    }
}

/// The last part of a text between slashes is its end, behind a slash or the whole of it.
pub proof fn last_is_the_end(s: Seq<char>, i: int)
    requires
        0 <= i <= s.len(),
        i > 0 ==> s[i - 1] == '/',
    ensures
        crate::text::parts_from(s, '/', i).len() > 0,
        exists|k: int|
            0 <= k <= s.len() && #[trigger] s.skip(k) == crate::text::parts_from(s, '/', i).last()
                && (k > 0 ==> s[k - 1] == '/'),
    decreases s.len() - i,
{
    let j = crate::text::span_from(s, Class::Not('/'), i);
    span_from_bounds(s, Class::Not('/'), i);
    if j < s.len() {
        last_is_the_end(s, j + 1);
        let rest = crate::text::parts_from(s, '/', j + 1);
        let all = crate::text::parts_from(s, '/', i);
        assert(all =~= seq![s.subrange(i, j)] + rest);
        assert(all.last() == rest.last());
    } else {
        assert(crate::text::parts_from(s, '/', i) =~= seq![s.skip(i)]);
        assert(s.skip(i) == crate::text::parts_from(s, '/', i).last());
    }
}

proof fn wants_is(rel: Seq<char>)
    ensures
        wants_declaration(rel) <==> ends(rel, ".rs"@) && parts(rel, '/').contains("src"@)
            && !wired_by_itself(rel),
{
    reveal_strlit(".rs");
    assert(".rs"@ =~= seq!['.', 'r', 's']);
    if ends(rel, ".rs"@) {
        last_part_ends(rel);
        let l = parts(rel, '/').last();
        reveal_strlit("lib");
        reveal_strlit("main");
        reveal_strlit("mod");
        reveal_strlit("build");
        reveal_strlit("lib.rs");
        reveal_strlit("main.rs");
        reveal_strlit("mod.rs");
        reveal_strlit("build.rs");
        assert("lib.rs"@ =~= "lib"@ + ".rs"@);
        assert("main.rs"@ =~= "main"@ + ".rs"@);
        assert("mod.rs"@ =~= "mod"@ + ".rs"@);
        assert("build.rs"@ =~= "build"@ + ".rs"@);
        stem_is(l, "lib"@, "lib.rs"@);
        stem_is(l, "main"@, "main.rs"@);
        stem_is(l, "mod"@, "mod.rs"@);
        stem_is(l, "build"@, "build.rs"@);
    }
}

/// A file that wants a declaration is reported unless some line of some file declares the module of
/// its name: what its last component is without `.rs`.
pub proof fn unwired_files_are_reported(ws: Workspace, f: int)
    requires
        0 <= f < ws.files@.len(),
        wants_declaration(ws.files@[f].0),
        forall|name: Seq<char>|
            #![trigger taken_in(ws, name)]
            parts(ws.files@[f].0, '/').last() == name + seq!['.', 'r', 's'] ==> !taken_in(ws, name),
    ensures
        exists|x: FindingView| #[trigger]
            forgotten(ws).contains(x) && x.rule == "forgotten-unwired"@ && x.severity
                == Severity::Warning && x.location.file == ws.files@[f].0,
{
    let rel = ws.files@[f].0;
    wants_is(rel);
    last_part_ends(rel);
    reveal_strlit(".rs");
    let l = parts(rel, '/').last();
    let stem = module_stem(rel);
    stem_is(l, stem, stem + ".rs"@);
    assert(".rs"@ =~= seq!['.', 'r', 's']);
    taken_in_is(ws, stem);
    assert(l == stem + seq!['.', 'r', 's']);
    assert(!taken_in(ws, stem));
    let one = unwired_finding(ws);
    let x = unwired_file(ws, rel)[0];
    assert(one(f)[0] == x);
    assert(one(f).contains(x));
    gather_contains(ws.files@.len() as int, one, x);
    concat_contains(
        gather(ws.files@.len() as int, one),
        gather(ws.files@.len() as int, undocumented_findings(ws)),
        x,
    );
    assert(forgotten(ws).contains(x));
}

/// Whether a report is owed: for a public item without documentation, on its line, or for a file
/// that wants a declaration and has none.
pub open spec fn owed(ws: Workspace, x: FindingView) -> bool {
    exists|f: int|
        0 <= f < ws.files@.len() && x.location.file == (#[trigger] ws.files@[f]).0 && (
        owed_item(x, lines_of(ws.files@[f].1@)) || owed_file(ws, x))
}

/// Whether a report speaks of an item without documentation.
pub open spec fn owed_item(x: FindingView, ls: Seq<Seq<char>>) -> bool {
    x.rule == "forgotten-undoc"@ && exists|i: int| #[trigger]
        left_undocumented(ls, i) && x.location.line == Some((i + 1) as u32)
}

/// Whether a report speaks of a file without a declaration.
pub open spec fn owed_file(ws: Workspace, x: FindingView) -> bool {
    &&& x.rule == "forgotten-unwired"@
    &&& wants_declaration(x.location.file)
    &&& exists|name: Seq<char>|
        parts(x.location.file, '/').last() == name + seq!['.', 'r', 's'] && !#[trigger] taken_in(ws, name)
}

/// Nothing else is reported as forgotten.
pub proof fn only_the_forgotten_is_reported(ws: Workspace, x: FindingView)
    requires
        forgotten(ws).contains(x),
    ensures
        owed(ws, x),
{
    let n = ws.files@.len() as int;
    let one = unwired_finding(ws);
    let all = undocumented_findings(ws);
    concat_contains(gather(n, one), gather(n, all), x);
    gather_contains(n, one, x);
    gather_contains(n, all, x);
    if gather(n, one).contains(x) {
        let f = choose|f: int| 0 <= f < n && (#[trigger] one(f)).contains(x);
        let rel = ws.files@[f].0;
        let found = one(f);
        let k = choose|k: int| 0 <= k < found.len() && found[k] == x;
        wants_is(rel);
        last_part_ends(rel);
        reveal_strlit(".rs");
        let stem = module_stem(rel);
        stem_is(parts(rel, '/').last(), stem, stem + ".rs"@);
        assert(".rs"@ =~= seq!['.', 'r', 's']);
        taken_in_is(ws, stem);
        assert(owed_file(ws, x));
        assert(ws.files@[f].0 == x.location.file);
    } else {
        let f = choose|f: int| 0 <= f < n && (#[trigger] all(f)).contains(x);
        let ls = lines_of(ws.files@[f].1@);
        let file = ws.files@[f].0;
        let each = undocumented_finding(file, ls);
        tests_on(ls, 0);
        gather_contains(tests_from(ls, 0), each, x);
        let i = choose|i: int| 0 <= i < tests_from(ls, 0) && (#[trigger] each(i)).contains(x);
        let found = each(i);
        let k = choose|k: int| 0 <= k < found.len() && found[k] == x;
        undocumented_is(file, ls, i);
        assert(left_undocumented(ls, i));
        assert(ws.files@[f].0 == x.location.file);
    }
}

} // verus!
