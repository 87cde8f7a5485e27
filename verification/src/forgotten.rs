//! Code that exists but was forgotten: files that no module declaration takes in, and public
//! items without a word of documentation.
use vstd::prelude::*;

use crate::finding::{
    emit, file_finding, finding_views, line_finding, Finding, FindingView, Location, Severity,
};
use crate::moves::{strip_pub, strip_qualifier, without_pub, without_qualifier, Workspace};
use crate::order::{named, Names, Table};
use crate::text::{
    ahead, behind, cat3, cat5, chars, ends, ends_with, gather, holds, join, joined, lead, leading,
    lines, lines_of, parts, put, same, split, split_whitespace, starts, starts_with, strip_prefix,
    strip_suffix, text_opt, texts, trim_start, trimmed_start, words, Class,
};

verus! {

/// The module that a line declares, inline or as a file.
pub open spec fn module_on(line: Seq<char>) -> Option<Seq<char>> {
    match behind(without_qualifier(without_pub(trimmed_start(line))), "mod "@) {
        Some(rest) => {
            let name = lead(rest, Class::Ident);
            if name.len() > 0 {
                Some(name)
            } else {
                None
            }
        },
        None => None,
    }
}

/// Whether a text declares a module.
pub open spec fn declares_module(text: Seq<char>, name: Seq<char>) -> bool {
    exists|i: int|
        0 <= i < lines_of(text).len() && module_on(#[trigger] lines_of(text)[i]) == Some(name)
}

/// Whether some file declares a module.
pub open spec fn declared(ws: Workspace, name: Seq<char>) -> bool {
    exists|i: int| 0 <= i < ws.files@.len() && declares_module((#[trigger] ws.files@[i]).1@, name)
}

/// The name of the module that a file is: its last component without `.rs`.
pub open spec fn module_stem(rel: Seq<char>) -> Seq<char> {
    match ahead(parts(rel, '/').last(), ".rs"@) {
        Some(s) => s,
        None => Seq::empty(),
    }
}

/// Whether a file is found without a declaration: by cargo, or as the root of a crate or of a
/// directory.
pub open spec fn wired_by_itself(rel: Seq<char>) -> bool {
    let c = parts(rel, '/');
    let s = module_stem(rel);
    ||| c.contains("bin"@)
    ||| c.contains("examples"@)
    ||| c.contains("benches"@)
    ||| c.contains("tests"@)
    ||| s == "lib"@
    ||| s == "main"@
    ||| s == "mod"@
    ||| s == "build"@
}

/// What stands against a Rust file that no declaration takes in.
pub open spec fn unwired_file(ws: Workspace, rel: Seq<char>) -> Seq<FindingView> {
    let stem = module_stem(rel);
    if ends(rel, ".rs"@) && parts(rel, '/').contains("src"@) && !wired_by_itself(rel) && !declared(
        ws,
        stem,
    ) {
        seq![
            file_finding(
                "forgotten-unwired"@,
                Severity::Warning,
                "`"@ + rel + "` is under src/ but no `mod "@ + stem
                    + ";` wires it in — not compiled, forgotten"@,
                rel,
                Some("add `mod "@ + stem + ";` to its parent module, or remove the file"@),
            ),
        ]
    } else {
        seq![]
    }
}

/// What stands against the files that no declaration takes in, by position.
pub open spec fn unwired_finding(ws: Workspace) -> spec_fn(int) -> Seq<FindingView> {
    |i: int| unwired_file(ws, ws.files@[i].0)
}

/// Whether a line begins the tests of a file.
pub open spec fn begins_tests(line: Seq<char>) -> bool {
    starts(trimmed_start(line), "#[cfg(test)]"@)
}

/// The first line from `i` on that begins the tests, or the end.
pub open spec fn tests_from(ls: Seq<Seq<char>>, i: int) -> int
    decreases ls.len() - i,
{
    if i >= ls.len() || begins_tests(ls[i]) {
        i
    } else {
        tests_from(ls, i + 1)
    }
}

/// Whether a line begins a public item at the top level.
pub open spec fn public_item(line: Seq<char>) -> bool {
    &&& !starts(line, " "@)
    &&& !starts(line, "\t"@)
    &&& starts(line, "pub fn "@) || starts(line, "pub struct "@) || starts(line, "pub enum "@)
        || starts(line, "pub trait "@) || starts(line, "pub const "@) || starts(line, "pub type "@)
        || starts(line, "pub static "@) || starts(line, "pub mod "@)
}

/// Whether a line is an attribute.
pub open spec fn attribute(line: Seq<char>) -> bool {
    starts(trimmed_start(line), "#["@) || starts(trimmed_start(line), "#!"@)
}

/// Where the attributes begin that end before line `j`.
pub open spec fn above_attributes(ls: Seq<Seq<char>>, j: int) -> int
    decreases j,
{
    if j > 0 && attribute(ls[j - 1]) {
        above_attributes(ls, j - 1)
    } else {
        j
    }
}

/// Whether a line is documentation.
pub open spec fn documentation(line: Seq<char>) -> bool {
    let t = trimmed_start(line);
    starts(t, "///"@) || starts(t, "/**"@) || starts(t, "//!"@)
}

/// Whether documentation stands above the item at line `i`.
pub open spec fn documented(ls: Seq<Seq<char>>, i: int) -> bool {
    let j = above_attributes(ls, i);
    j > 0 && documentation(ls[j - 1])
}

/// The first two words of a line.
pub open spec fn item_name(line: Seq<char>) -> Seq<char> {
    let w = words(line);
    joined(
        if w.len() > 2 {
            w.take(2)
        } else {
            w
        },
        " "@,
    )
}

/// What stands against an item without documentation.
pub open spec fn undocumented_finding(rel: Seq<char>, ls: Seq<Seq<char>>) -> spec_fn(int) -> Seq<
    FindingView,
> {
    |i: int|
        if public_item(ls[i]) && !documented(ls, i) {
            seq![
                line_finding(
                    "forgotten-undoc"@,
                    Severity::Info,
                    "public `"@ + item_name(ls[i]) + "` has no doc comment"@,
                    rel,
                    (i + 1) as u32,
                    Some(
                        "add a `///` doc, or narrow visibility if it isn't public API"@,
                    ),
                ),
            ]
        } else {
            seq![]
        }
}

/// What stands against the items of a file without documentation.
pub open spec fn undocumented_findings(ws: Workspace) -> spec_fn(int) -> Seq<FindingView> {
    |i: int|
        {
            let ls = lines_of(ws.files@[i].1@);
            gather(tests_from(ls, 0), undocumented_finding(ws.files@[i].0, ls))
        }
}

/// What was forgotten in a workspace.
pub open spec fn forgotten(ws: Workspace) -> Seq<FindingView> {
    gather(ws.files@.len() as int, unwired_finding(ws)) + gather(
        ws.files@.len() as int,
        undocumented_findings(ws),
    )
}

fn mod_name(line: &str) -> (r: Option<String>)
    ensures
        text_opt(r) == module_on(line@),
{
    let t = strip_qualifier(strip_pub(trim_start(line)));
    match strip_prefix(t.as_str(), "mod ") {
        Some(rest) => {
            let name = leading(rest.as_str(), Class::Ident);
            if chars(name.as_str()).len() > 0 {
                Some(name)
            } else {
                None
            }
        },
        None => None,
    }
}

fn add_declared(text: &str, names: &mut Names)
    ensures
        forall|n: Seq<char>| #[trigger]
            named(final(names)@, n) <==> named(old(names)@, n) || declares_module(text@, n),
{
    let ls = lines(text);
    let ghost all = lines_of(text@);
    let ghost before = names@;
    let mut i: usize = 0;
    while i < ls.len()
        invariant
            i <= ls.len(),
            all == texts(ls@),
            all == lines_of(text@),
            forall|n: Seq<char>| #[trigger]
                named(names@, n) <==> named(before, n) || exists|k: int|
                    0 <= k < i && module_on(#[trigger] all[k]) == Some(n),
        decreases ls.len() - i,
    {
        assert(all[i as int] == ls@[i as int]@);
        let ghost mid = names@;
        match mod_name(ls[i].as_str()) {
            Some(name) => {
                let ghost added = name@;
                names.insert(name, ());
                assert forall|n: Seq<char>| #[trigger] named(names@, n) <==> named(before, n)
                    || exists|k: int| 0 <= k < i + 1 && module_on(#[trigger] all[k]) == Some(n) by {
                    if n == added {
                        assert(module_on(all[i as int]) == Some(n));
                    } else {
                        assert(named(names@, n) <==> named(mid, n));
                    }
                }
            },
            None => {},
        }
        i += 1;
    }
    assert(all.len() == ls@.len());
}

fn declared_modules(ws: &Workspace) -> (r: Names)
    ensures
        forall|n: Seq<char>| #[trigger] named(r@, n) <==> declared(*ws, n),
{
    let mut names: Names = Table::new();
    let total = ws.files.len();
    let mut i: usize = 0;
    while i < total
        invariant
            i <= total == ws.files@.len(),
            forall|n: Seq<char>| #[trigger]
                named(names@, n) <==> exists|k: int|
                    0 <= k < i && declares_module((#[trigger] ws.files@[k]).1@, n),
        decreases total - i,
    {
        add_declared(ws.files.value(i).as_str(), &mut names);
        i += 1;
    }
    names
}

fn is_wired_by_itself(c: &Vec<String>, s: &str, Ghost(rel): Ghost<Seq<char>>) -> (r: bool)
    requires
        texts(c@) == parts(rel, '/'),
        s@ == module_stem(rel),
    ensures
        r == wired_by_itself(rel),
{
    holds(c, "bin") || holds(c, "examples") || holds(c, "benches") || holds(c, "tests") || same(
        s,
        "lib",
    ) || same(s, "main") || same(s, "mod") || same(s, "build")
}

fn write_stem(c: &Vec<String>, Ghost(rel): Ghost<Seq<char>>) -> (r: String)
    requires
        texts(c@) == parts(rel, '/'),
    ensures
        r@ == module_stem(rel),
{
    proof {
        crate::text::parts_nonempty(rel, '/', 0);
        assert(texts(c@).len() == c@.len());
        assert(texts(c@).last() == c@[c@.len() - 1]@);
    }
    match strip_suffix(c[c.len() - 1].as_str(), ".rs") {
        Some(s) => s,
        None => {
            let none = String::new();
            assert(none@ =~= Seq::<char>::empty());
            none
        },
    }
}

fn check_unwired(ws: &Workspace, known: &Names, rel: &str, out: &mut Vec<Finding>)
    requires
        forall|n: Seq<char>| #[trigger] named(known@, n) <==> declared(*ws, n),
    ensures
        finding_views(final(out)@) == finding_views(old(out)@) + unwired_file(*ws, rel@),
{
    let ghost before = finding_views(out@);
    let c = split(rel, '/');
    let stem = write_stem(&c, Ghost(rel@));
    let s = stem.as_str();
    if ends_with(rel, ".rs") && holds(&c, "src") && !is_wired_by_itself(&c, s, Ghost(rel@))
        && !known.contains(s) {
        let f = Finding::new(
            "forgotten-unwired",
            Severity::Warning,
            cat5(
                "`",
                rel,
                "` is under src/ but no `mod ",
                s,
                ";` wires it in — not compiled, forgotten",
            ),
            Location::file(rel.to_owned()),
        );
        emit(
            out,
            f.with_fix(cat3("add `mod ", s, ";` to its parent module, or remove the file")),
        );
    }
    assert(finding_views(out@) =~= before + unwired_file(*ws, rel@));
}

fn list_unwired(ws: &Workspace, out: &mut Vec<Finding>)
    ensures
        finding_views(final(out)@) == finding_views(old(out)@) + gather(
            ws.files@.len() as int,
            unwired_finding(*ws),
        ),
{
    let ghost before = finding_views(out@);
    let known = declared_modules(ws);
    let total = ws.files.len();
    let mut i: usize = 0;
    while i < total
        invariant
            i <= total == ws.files@.len(),
            forall|n: Seq<char>| #[trigger] named(known@, n) <==> declared(*ws, n),
            finding_views(out@) =~= before + gather(i as int, unwired_finding(*ws)),
        decreases total - i,
    {
        check_unwired(ws, &known, ws.files.name(i).as_str(), out);
        i += 1;
    }
}

/// Where the tests of a file begin.
pub(crate) fn find_tests(ls: &Vec<String>) -> (r: usize)
    ensures
        r == tests_from(texts(ls@), 0),
        r <= ls.len(),
{
    let mut i: usize = 0;
    while i < ls.len()
        invariant
            i <= ls.len(),
            tests_from(texts(ls@), 0) == tests_from(texts(ls@), i as int),
        decreases ls.len() - i,
    {
        assert(texts(ls@)[i as int] == ls@[i as int]@);
        if starts_with(trim_start(ls[i].as_str()).as_str(), "#[cfg(test)]") {
            return i;
        }
        i += 1;
    }
    i
}

fn is_public_item(line: &str) -> (r: bool)
    ensures
        r == public_item(line@),
{
    !starts_with(line, " ") && !starts_with(line, "\t") && (starts_with(line, "pub fn ")
        || starts_with(line, "pub struct ") || starts_with(line, "pub enum ") || starts_with(
        line,
        "pub trait ",
    ) || starts_with(line, "pub const ") || starts_with(line, "pub type ") || starts_with(
        line,
        "pub static ",
    ) || starts_with(line, "pub mod "))
}

fn is_documented(ls: &Vec<String>, i: usize) -> (r: bool)
    requires
        i < ls.len(),
    ensures
        r == documented(texts(ls@), i as int),
{
    let mut j: usize = i;
    while j > 0
        invariant_except_break
            j <= i < ls.len(),
            above_attributes(texts(ls@), i as int) == above_attributes(texts(ls@), j as int),
        ensures
            j <= i < ls.len(),
            j == above_attributes(texts(ls@), i as int),
        decreases j,
    {
        assert(texts(ls@)[j - 1] == ls@[j - 1]@);
        let prev = trim_start(ls[j - 1].as_str());
        if starts_with(prev.as_str(), "#[") || starts_with(prev.as_str(), "#!") {
            j -= 1;
        } else {
            break;
        }
    }
    if j == 0 {
        return false;
    }
    assert(texts(ls@)[j - 1] == ls@[j - 1]@);
    let prev = trim_start(ls[j - 1].as_str());
    starts_with(prev.as_str(), "///") || starts_with(prev.as_str(), "/**") || starts_with(
        prev.as_str(),
        "//!",
    )
}

fn write_item(line: &str) -> (r: String)
    ensures
        r@ == item_name(line@),
{
    let w = split_whitespace(line);
    let ghost all = words(line@);
    assert(all.len() == w@.len());
    if w.len() > 2 {
        let mut two: Vec<String> = Vec::new();
        put(&mut two, w[0].clone());
        put(&mut two, w[1].clone());
        assert(texts(two@) =~= all.take(2)) by {
            assert(texts(w@)[0] == w@[0]@);
            assert(texts(w@)[1] == w@[1]@);
        }
        join(&two, " ")
    } else {
        join(&w, " ")
    }
}

fn list_undocumented_in(rel: &str, text: &str, out: &mut Vec<Finding>)
    ensures
        finding_views(final(out)@) == finding_views(old(out)@) + gather(
            tests_from(lines_of(text@), 0),
            undocumented_finding(rel@, lines_of(text@)),
        ),
{
    let ls = lines(text);
    let ghost all = lines_of(text@);
    let end = find_tests(&ls);
    let ghost before = finding_views(out@);
    let mut k: usize = 0;
    while k < end
        invariant
            k <= end <= ls.len(),
            all == texts(ls@),
            finding_views(out@) =~= before + gather(k as int, undocumented_finding(rel@, all)),
        decreases end - k,
    {
        assert(all[k as int] == ls@[k as int]@);
        if is_public_item(ls[k].as_str()) && !is_documented(&ls, k) {
            let n: usize = k + 1;
            let line: u32 = #[verifier::truncate] (n as u32);
            let f = Finding::new(
                "forgotten-undoc",
                Severity::Info,
                cat3("public `", write_item(ls[k].as_str()).as_str(), "` has no doc comment"),
                Location::at(rel.to_owned(), line),
            );
            emit(
                out,
                f.with_fix(
                    "add a `///` doc, or narrow visibility if it isn't public API".to_owned(),
                ),
            );
        }
        k += 1;
    }
}

/// Finds what was forgotten in a workspace.
pub fn evaluate(ws: &Workspace) -> (r: Vec<Finding>)
    ensures
        finding_views(r@) == forgotten(*ws),
{
    let mut out: Vec<Finding> = Vec::new();
    assert(finding_views(out@) =~= Seq::<FindingView>::empty());
    list_unwired(ws, &mut out);
    let ghost before = finding_views(out@);
    assert(before =~= gather(ws.files@.len() as int, unwired_finding(*ws)));
    let total = ws.files.len();
    let mut i: usize = 0;
    while i < total
        invariant
            i <= total == ws.files@.len(),
            finding_views(out@) =~= before + gather(i as int, undocumented_findings(*ws)),
        decreases total - i,
    {
        list_undocumented_in(ws.files.name(i).as_str(), ws.files.value(i).as_str(), &mut out);
        i += 1;
    }
    out
}

} // verus!
