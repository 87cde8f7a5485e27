//! Moving a source file without breaking what refers to it: the rewrites that a move calls for
//! are computed from the workspace, shown as a diff, and applied byte for byte.
use vstd::prelude::*;

use crate::order::{
    arrange, arranged, arranged_mapped, canon, canonical, canonical_mapped, named, number_key,
    number_rank, path_key, path_rank, value_of, Keyed, PathName, PathView, Ranked, Table,
};
use crate::paths::{components, components_of, plain, same_path, spelled, write_spelled};
use crate::text::{
    at, behind, cat2, cat3, cat4, cat5, cat7, chars, concat_contains, contains, count, count_from,
    dec, decimal_usize, ends, ends_with, find, gather, gather_contains, holds, in_class, join,
    joined, line_views, lines, lines_of, occurs, pieces, position, put, rcut, rsplit_once, same,
    slice, split_lines, stands_at, starts, starts_with, strip_prefix, strip_suffix, text_opt,
    texts, trim, trim_end, trim_start, trimmed, trimmed_end, trimmed_start, Class, Line, Piece,
};

verus! {

/// A proposed move of a file. Paths are relative to the repository, with `/` between their
/// components.
#[derive(Debug, Clone)]
pub struct Move {
    pub from: String,
    pub to: String,
}

/// What an edit does: replace the line, delete it, or insert a new one after it.
#[derive(Debug, Clone, Copy, PartialEq, Eq, Structural)]
pub enum EditKind {
    Replace,
    Delete,
    Insert,
}

/// A rewrite of one line of one file, with the reason for it. Lines count from 1; an insertion
/// goes after its line, and after line 0 at the top of the file.
#[derive(Debug, Clone)]
pub struct Edit {
    pub path: String,
    pub line: usize,
    pub before: String,
    pub after: String,
    pub reason: String,
    pub kind: EditKind,
}

/// A move, the rewrites that it calls for, and warnings about what could not be worked out.
#[derive(Debug, Clone)]
pub struct MovePlan {
    pub mv: Option<Move>,
    pub edits: Vec<Edit>,
    pub warnings: Vec<String>,
}

/// The files that a plan is computed from, by path. Paths with the same components are one.
pub struct Workspace {
    pub root: String,
    pub files: Table<String, true>,
}

// ── views ──────────────────────────────────────────────────────────────────────────────

/// What an edit says.
#[verifier::ext_equal]
pub struct EditView {
    pub path: Seq<char>,
    pub line: usize,
    pub before: Seq<char>,
    pub after: Seq<char>,
    pub reason: Seq<char>,
    pub kind: EditKind,
}

impl View for Edit {
    type V = EditView;

    open spec fn view(&self) -> EditView {
        EditView {
            path: self.path@,
            line: self.line,
            before: self.before@,
            after: self.after@,
            reason: self.reason@,
            kind: self.kind,
        }
    }
}

/// The rank of a line of a file: by the path, then by the line.
pub open spec fn place_rank(path: Seq<char>, line: int) -> Seq<i64> {
    path_rank(path).push((-5) as i64) + number_rank(line)
}

impl Ranked for EditView {
    open spec fn rank(&self) -> Seq<i64> {
        place_rank(self.path, self.line as int)
    }
}

impl Ranked for Edit {
    open spec fn rank(&self) -> Seq<i64> {
        place_rank(self.path@, self.line as int)
    }
}

impl Keyed for Edit {
    fn key(&self) -> (r: Vec<i64>) {
        let mut k = path_key(self.path.as_str());
        k.push(-5);
        let mut n = number_key(self.line);
        k.append(&mut n);
        k
    }
}

/// The views of a list of edits.
pub open spec fn edit_views(v: Seq<Edit>) -> Seq<EditView> {
    v.map_values(|e: Edit| e@)
}

/// What a plan says.
pub struct PlanView {
    pub from: Seq<char>,
    pub to: Seq<char>,
    pub edits: Seq<EditView>,
    pub warnings: Seq<Seq<char>>,
}

impl MovePlan {
    /// Whether the plan says this.
    pub open spec fn says(self, v: PlanView) -> bool {
        &&& self.mv is Some
        &&& self.mv->0.from@ == v.from
        &&& self.mv->0.to@ == v.to
        &&& edit_views(self.edits@) == v.edits
        &&& texts(self.warnings@) == v.warnings
    }
}

// ── paths ──────────────────────────────────────────────────────────────────────────────

/// The first position from `i` on of a string in a list.
pub open spec fn first_of(v: Seq<Seq<char>>, x: Seq<char>, i: int) -> Option<int>
    decreases v.len() - i,
{
    if i >= v.len() {
        None
    } else if v[i] == x {
        Some(i)
    } else {
        first_of(v, x, i + 1)
    }
}

/// The extension of a path: what comes after the last dot of its last component, unless that
/// dot begins it.
pub open spec fn extension_of(path: Seq<char>) -> Option<Seq<char>> {
    let c = components_of(path);
    if c.len() == 0 {
        None
    } else {
        match rcut(c.last(), "."@) {
            Some((stem, ext)) => if stem.len() > 0 && c.last() != ".."@ {
                Some(ext)
            } else {
                None
            },
            None => None,
        }
    }
}

/// Whether a file stands for the directory that it is in.
pub open spec fn is_root_name(name: Seq<char>) -> bool {
    name == "lib"@ || name == "main"@ || name == "mod"@
}

/// The module path of a file within its crate: the components after `src`, the last of them
/// without `.rs`, and without one that stands for its directory.
pub open spec fn segments(path: Seq<char>) -> Option<Seq<Seq<char>>> {
    let c = components_of(path);
    match first_of(c, "src"@, 0) {
        None => None,
        Some(i) => {
            let s = c.skip(i + 1);
            if s.len() == 0 {
                None
            } else {
                match crate::text::ahead(s.last(), ".rs"@) {
                    None => None,
                    Some(stem) => if is_root_name(stem) {
                        Some(s.drop_last())
                    } else {
                        Some(s.drop_last().push(stem))
                    },
                }
            }
        },
    }
}

/// The path of a file down to `src`.
pub open spec fn src_dir(path: Seq<char>) -> Seq<char> {
    let c = components_of(path);
    match first_of(c, "src"@, 0) {
        Some(i) => spelled(c.take(i + 1)),
        None => Seq::empty(),
    }
}

/// `dir` with the first `n` of `segs` below it.
pub open spec fn under(dir: Seq<char>, segs: Seq<Seq<char>>, n: int) -> Seq<char>
    decreases n,
{
    if n <= 0 {
        dir
    } else {
        under(dir, segs, n - 1) + "/"@ + segs[n - 1]
    }
}

fn find_first(v: &Vec<String>, x: &str) -> (r: Option<usize>)
    ensures
        crate::text::place(r) == first_of(texts(v@), x@, 0),
        r is Some ==> r->0 < v.len(),
{
    let mut i: usize = 0;
    while i < v.len()
        invariant
            i <= v.len(),
            first_of(texts(v@), x@, 0) == first_of(texts(v@), x@, i as int),
        decreases v.len() - i,
    {
        assert(texts(v@)[i as int] == v@[i as int]@);
        if same(v[i].as_str(), x) {
            return Some(i);
        }
        i += 1;
    }
    None
}

/// Copies of the strings `v[from..to]`.
fn sublist(v: &Vec<String>, from: usize, to: usize) -> (r: Vec<String>)
    requires
        from <= to <= v.len(),
    ensures
        texts(r@) == texts(v@).subrange(from as int, to as int),
{
    let mut r: Vec<String> = Vec::new();
    let mut i: usize = from;
    while i < to
        invariant
            from <= i <= to <= v.len(),
            texts(r@) =~= texts(v@).subrange(from as int, i as int),
        decreases to - i,
    {
        put(&mut r, v[i].clone());
        i += 1;
    }
    r
}

/// The extension of a path.
pub fn extension(path: &str) -> (r: Option<String>)
    ensures
        text_opt(r) == extension_of(path@),
{
    let c = components(path);
    let ghost cs = texts(c@);
    if c.len() == 0 {
        return None;
    }
    let last = &c[c.len() - 1];
    assert(cs.last() == last@);
    match rsplit_once(last.as_str(), ".") {
        Some((stem, ext)) => {
            if chars(stem.as_str()).len() > 0 && !same(last.as_str(), "..") {
                Some(ext)
            } else {
                None
            }
        },
        None => None,
    }
}

/// The module path of a file within its crate, such as `a` and `b` for `src/a/b.rs`, `a` for
/// `src/a/mod.rs`, and nothing at all for `src/lib.rs`; `None` for what is not a Rust file
/// under a `src` directory.
pub fn mod_segments(path: &str) -> (r: Option<Vec<String>>)
    ensures
        match r {
            Some(v) => segments(path@) == Some(texts(v@)),
            None => segments(path@) is None,
        },
{
    let c = components(path);
    let ghost cs = texts(c@);
    match find_first(&c, "src") {
        None => None,
        Some(i) => {
            if i + 1 == c.len() {
                return None;
            }
            let ghost s = cs.skip(i + 1);
            let last = &c[c.len() - 1];
            assert(s.last() == last@);
            match strip_suffix(last.as_str(), ".rs") {
                None => None,
                Some(stem) => {
                    let mut segs = sublist(&c, i + 1, c.len() - 1);
                    assert(cs.subrange(i + 1, cs.len() - 1) =~= s.drop_last());
                    if !(same(stem.as_str(), "lib") || same(stem.as_str(), "main") || same(
                        stem.as_str(),
                        "mod",
                    )) {
                        put(&mut segs, stem);
                    }
                    Some(segs)
                },
            }
        },
    }
}

fn write_src_dir(path: &str) -> (r: String)
    ensures
        r@ == src_dir(path@),
{
    let c = components(path);
    match find_first(&c, "src") {
        Some(i) => {
            let head = sublist(&c, 0, i + 1);
            assert(texts(c@).subrange(0, i + 1) =~= texts(c@).take(i + 1));
            write_spelled(&head)
        },
        None => {
            let r = String::new();
            assert(r@ =~= Seq::<char>::empty());
            r
        },
    }
}

fn write_under(dir: &str, segs: &Vec<String>, n: usize) -> (r: String)
    requires
        n <= segs.len(),
    ensures
        r@ == under(dir@, texts(segs@), n as int),
{
    let mut r = dir.to_owned();
    let mut i: usize = 0;
    while i < n
        invariant
            i <= n <= segs.len(),
            r@ == under(dir@, texts(segs@), i as int),
        decreases n - i,
    {
        r.append("/");
        r.append(segs[i].as_str());
        assert(texts(segs@)[i as int] == segs@[i as int]@);
        i += 1;
    }
    r
}

// ── module declarations ────────────────────────────────────────────────────────────────

impl Workspace {
    /// The file that declares the children of a module: the root of the crate for no segments,
    /// else the file of the module in its flat or in its nested form, whichever is there.
    pub open spec fn declaring(self, dir: Seq<char>, segs: Seq<Seq<char>>) -> Option<Seq<char>> {
        let n = segs.len() as int;
        let first = if n == 0 {
            dir + "/"@ + "lib.rs"@
        } else {
            under(dir, segs, n - 1) + "/"@ + segs[n - 1] + ".rs"@
        };
        let second = if n == 0 {
            dir + "/"@ + "main.rs"@
        } else {
            under(dir, segs, n) + "/mod.rs"@
        };
        if named(self.files@, plain(first)) {
            Some(first)
        } else if named(self.files@, plain(second)) {
            Some(second)
        } else {
            None
        }
    }
}

/// Where the file of a module is expected that is not there yet.
pub open spec fn expected_parent(dir: Seq<char>, segs: Seq<Seq<char>>) -> Seq<char> {
    let n = segs.len() as int;
    if n == 0 {
        dir + "/lib.rs"@
    } else {
        under(dir, segs, n - 1) + "/"@ + segs[n - 1] + ".rs"@
    }
}

/// `t` without the `pub` that it begins with.
pub open spec fn without_pub(t: Seq<char>) -> Seq<char> {
    match behind(t, "pub"@) {
        Some(rest) => trimmed_start(rest),
        None => t,
    }
}

/// `t` without the bracketed qualifier that it begins with.
pub open spec fn without_qualifier(t: Seq<char>) -> Seq<char> {
    if starts(t, "("@) {
        match find(t, ")"@) {
            Some(i) => trimmed_start(t.skip(i + 1)),
            None => t,
        }
    } else {
        t
    }
}

/// Whether a line declares the module `name` as a file of its own, with any visibility.
pub open spec fn declares(line: Seq<char>, name: Seq<char>) -> bool {
    match behind(without_qualifier(without_pub(trimmed(line))), "mod "@) {
        Some(rest) => trimmed(rest) == name + ";"@ || trimmed(rest) == name + " ;"@,
        None => false,
    }
}

/// The first line from `i` on that declares the module `name`.
pub open spec fn declaration_from(ls: Seq<Seq<char>>, name: Seq<char>, i: int) -> Option<int>
    decreases ls.len() - i,
{
    if i >= ls.len() {
        None
    } else if declares(ls[i], name) {
        Some(i)
    } else {
        declaration_from(ls, name, i + 1)
    }
}

/// Whether a line looks like a module declaration.
pub open spec fn like_declaration(line: Seq<char>) -> bool {
    let t = trimmed_start(line);
    (starts(t, "mod "@) || starts(t, "pub mod "@) || starts(t, "pub("@)) && ends(
        trimmed_end(line),
        ";"@,
    )
}

/// The number of the last of the first `n` lines that looks like a module declaration, or 0.
pub open spec fn last_declaration(ls: Seq<Seq<char>>, n: int) -> int
    decreases n,
{
    if n <= 0 {
        0
    } else if like_declaration(ls[n - 1]) {
        n
    } else {
        last_declaration(ls, n - 1)
    }
}

impl Workspace {
    fn find_declaring(&self, dir: &str, segs: &Vec<String>, n: usize) -> (r: Option<String>)
        requires
            n <= segs.len(),
        ensures
            text_opt(r) == self.declaring(dir@, texts(segs@).take(n as int)),
            r is Some ==> named(self.files@, plain(r->0@)),
    {
        let ghost all = texts(segs@).take(n as int);
        let (first, second) = if n == 0 {
            (cat3(dir, "/", "lib.rs"), cat3(dir, "/", "main.rs"))
        } else {
            let base = write_under(dir, segs, n - 1);
            proof {
                under_prefix(dir@, texts(segs@), all, n - 1);
                under_prefix(dir@, texts(segs@), all, n as int);
                assert(all[n - 1] == segs@[n - 1]@);
            }
            let last = &segs[n - 1];
            let flat = cat4(base.as_str(), "/", last.as_str(), ".rs");
            let nested = cat2(write_under(dir, segs, n).as_str(), "/mod.rs");
            (flat, nested)
        };
        if self.files.contains(first.as_str()) {
            Some(first)
        } else if self.files.contains(second.as_str()) {
            Some(second)
        } else {
            None
        }
    }
}

proof fn under_prefix(dir: Seq<char>, a: Seq<Seq<char>>, b: Seq<Seq<char>>, n: int)
    requires
        0 <= n <= a.len(),
        n <= b.len(),
        forall|i: int| 0 <= i < n ==> a[i] == b[i],
    ensures
        under(dir, a, n) == under(dir, b, n),
    decreases n,
{
    if n > 0 {
        under_prefix(dir, a, b, n - 1);
    }
}

fn write_expected(dir: &str, segs: &Vec<String>, n: usize) -> (r: String)
    requires
        n <= segs.len(),
    ensures
        r@ == expected_parent(dir@, texts(segs@).take(n as int)),
{
    if n == 0 {
        return cat2(dir, "/lib.rs");
    }
    proof {
        under_prefix(dir@, texts(segs@), texts(segs@).take(n as int), n - 1);
        assert(texts(segs@).take(n as int)[n - 1] == segs@[n - 1]@);
    }
    cat4(write_under(dir, segs, n - 1).as_str(), "/", segs[n - 1].as_str(), ".rs")
}

pub(crate) fn strip_pub(t: String) -> (r: String)
    ensures
        r@ == without_pub(t@),
{
    match strip_prefix(t.as_str(), "pub") {
        Some(rest) => trim_start(rest.as_str()),
        None => t,
    }
}

pub(crate) fn strip_qualifier(t: String) -> (r: String)
    ensures
        r@ == without_qualifier(t@),
{
    if starts_with(t.as_str(), "(") {
        proof {
            reveal_strlit(")");
            assert(")"@.len() == 1);
        }
        let a = chars(t.as_str());
        match position(t.as_str(), ")") {
            Some(i) => {
                assert(i + ")"@.len() <= a@.len());
                assert(i < a.len());
                let rest = slice(&a, i + 1, a.len());
                assert(a@.subrange(i + 1, a@.len() as int) =~= t@.skip(i + 1));
                trim_start(rest.as_str())
            },
            None => t,
        }
    } else {
        t
    }
}

fn is_mod_decl(line: &str, name: &str) -> (r: bool)
    ensures
        r == declares(line@, name@),
{
    let t = strip_qualifier(strip_pub(trim(line)));
    match strip_prefix(t.as_str(), "mod ") {
        Some(rest) => {
            let rest = trim(rest.as_str());
            same(rest.as_str(), cat2(name, ";").as_str()) || same(
                rest.as_str(),
                cat2(name, " ;").as_str(),
            )
        },
        None => false,
    }
}

fn find_mod_decl(ls: &Vec<String>, name: &str) -> (r: Option<usize>)
    ensures
        crate::text::place(r) == declaration_from(texts(ls@), name@, 0),
        r is Some ==> r->0 < ls.len(),
{
    let mut i: usize = 0;
    while i < ls.len()
        invariant
            i <= ls.len(),
            declaration_from(texts(ls@), name@, 0) == declaration_from(
                texts(ls@),
                name@,
                i as int,
            ),
        decreases ls.len() - i,
    {
        assert(texts(ls@)[i as int] == ls@[i as int]@);
        if is_mod_decl(ls[i].as_str(), name) {
            return Some(i);
        }
        i += 1;
    }
    None
}

fn last_mod_line(ls: &Vec<String>) -> (r: usize)
    ensures
        r == last_declaration(texts(ls@), ls@.len() as int),
{
    let mut n: usize = ls.len();
    while n > 0
        invariant
            n <= ls.len(),
            last_declaration(texts(ls@), ls@.len() as int) == last_declaration(
                texts(ls@),
                n as int,
            ),
        decreases n,
    {
        assert(texts(ls@)[n - 1] == ls@[n - 1]@);
        let l = ls[n - 1].as_str();
        let t = trim_start(l);
        if (starts_with(t.as_str(), "mod ") || starts_with(t.as_str(), "pub mod ") || starts_with(
            t.as_str(),
            "pub(",
        )) && ends_with(trim_end(l).as_str(), ";") {
            return n;
        }
        n -= 1;
    }
    0
}

// ── path prefixes ──────────────────────────────────────────────────────────────────────

/// Whether `prior` stands at position `i` as a whole path prefix: not in the middle of an
/// identifier, and not as the beginning of a longer one.
pub open spec fn prefix_at(s: Seq<char>, prior: Seq<char>, i: int) -> bool {
    let end = i + prior.len();
    &&& at(s, prior, i)
    &&& i == 0 || !in_class(Class::AsciiIdent, s[i - 1])
    &&& end >= s.len() || at(s, "::"@, end) || !in_class(Class::AsciiIdent, s[end])
}

/// What comes from position `i` on once every whole `prior` has become `new`, and whether there
/// was one.
pub open spec fn rewritten_from(s: Seq<char>, prior: Seq<char>, new: Seq<char>, i: int) -> (
    Seq<char>,
    bool,
)
    decreases s.len() - i,
{
    if i >= s.len() {
        (Seq::empty(), false)
    } else if prior.len() > 0 && prefix_at(s, prior, i) {
        (new + rewritten_from(s, prior, new, i + prior.len()).0, true)
    } else {
        let rest = rewritten_from(s, prior, new, i + 1);
        (seq![s[i]] + rest.0, rest.1)
    }
}

/// A line with every whole path prefix `prior` turned into `new`; nothing where there is none.
pub open spec fn rewritten(s: Seq<char>, prior: Seq<char>, new: Seq<char>) -> Option<Seq<char>> {
    let r = rewritten_from(s, prior, new, 0);
    if r.1 {
        Some(r.0)
    } else {
        None
    }
}

/// Turns every whole path prefix `prior` of a line into `new`, so that `crate::a` is found in
/// `use crate::a::X;` and not in `use crate::ab::X;`; `None` where there is none.
pub fn replace_path_prefix(line: &str, prior: &str, new: &str) -> (r: Option<String>)
    requires
        prior@.len() > 0,
    ensures
        text_opt(r) == rewritten(line@, prior@, new@),
{
    let s = chars(line);
    let p = chars(prior);
    let colons = chars("::");
    let mut out = String::new();
    let mut i: usize = 0;
    let mut hit = false;
    while i < s.len()
        invariant
            i <= s.len(),
            s@ == line@,
            p@ == prior@,
            p@.len() > 0,
            colons@ == "::"@,
            rewritten_from(line@, prior@, new@, 0).0 =~= out@ + rewritten_from(
                line@,
                prior@,
                new@,
                i as int,
            ).0,
            rewritten_from(line@, prior@, new@, 0).1 == (hit || rewritten_from(
                line@,
                prior@,
                new@,
                i as int,
            ).1),
        decreases s.len() - i,
    {
        if stands_at(&s, &p, i) {
            let end: usize = i + p.len();
            let before_ok = i == 0 || !crate::text::belongs(Class::AsciiIdent, s[i - 1]);
            let after_ok = end >= s.len() || stands_at(&s, &colons, end) || !crate::text::belongs(
                Class::AsciiIdent,
                s[end],
            );
            if before_ok && after_ok {
                out.append(new);
                i = end;
                hit = true;
                continue;
            }
        }
        out.push(s[i]);
        i += 1;
    }
    if hit {
        Some(out)
    } else {
        None
    }
}

// ── the plan ───────────────────────────────────────────────────────────────────────────

/// The largest machine number at which counts stop.
pub open spec fn capped(n: int) -> int {
    if n <= usize::MAX {
        n
    } else {
        usize::MAX as int
    }
}

/// The rewrite of a line.
pub open spec fn line_rewrite(
    path: Seq<char>,
    ls: Seq<Seq<char>>,
    prior: Seq<char>,
    new: Seq<char>,
) -> spec_fn(int) -> Seq<EditView> {
    |i: int|
        match rewritten(ls[i], prior, new) {
            Some(after) => seq![
                (EditView {
                    path,
                    line: (i + 1) as usize,
                    before: ls[i],
                    after,
                    reason: "rewrite `"@ + prior + "` → `"@ + new + "`"@,
                    kind: EditKind::Replace,
                }),
            ],
            None => seq![],
        }
}

/// The rewrites of a file.
pub open spec fn file_rewrites(
    files: Seq<(Seq<char>, String)>,
    prior: Seq<char>,
    new: Seq<char>,
) -> spec_fn(int) -> Seq<EditView> {
    |i: int|
        {
            let ls = lines_of(files[i].1@);
            gather(ls.len() as int, line_rewrite(files[i].0, ls, prior, new))
        }
}

/// How often the first `n` files refer to a module by a relative path.
pub open spec fn relative_hits(files: Seq<(Seq<char>, String)>, name: Seq<char>, n: int) -> int
    decreases n,
{
    if n <= 0 {
        0
    } else {
        capped(
            capped(
                relative_hits(files, name, n - 1) + count_from(
                    files[n - 1].1@,
                    "super::"@ + name,
                    0,
                ),
            ) + count_from(files[n - 1].1@, "self::"@ + name, 0),
        )
    }
}

/// The removal of the declaration of the moved module, or a warning that it was not found.
pub open spec fn removal(
    ws: Workspace,
    dir: Seq<char>,
    parent: Seq<Seq<char>>,
    name: Seq<char>,
) -> (Seq<EditView>, Seq<Seq<char>>) {
    match ws.declaring(dir, parent) {
        Some(file) => {
            let ls = lines_of(value_of(ws.files@, plain(file))->0@);
            match declaration_from(ls, name, 0) {
                Some(i) => (
                    seq![
                        (EditView {
                            path: file,
                            line: (i + 1) as usize,
                            before: ls[i],
                            after: Seq::empty(),
                            reason: "remove `mod "@ + name + ";` from its old parent"@,
                            kind: EditKind::Delete,
                        }),
                    ],
                    seq![],
                ),
                None => (
                    seq![],
                    seq![
                        "expected `mod "@ + name + ";` in "@ + file
                            + " but did not find it (macro-generated module, or already absent?)"@,
                    ],
                ),
            }
        },
        None => (
            seq![],
            seq![
                "could not locate the module file that declares `mod "@ + name + ";`"@,
            ],
        ),
    }
}

/// The declaration of the moved module in its new parent, or a warning that there is none.
pub open spec fn insertion(
    ws: Workspace,
    dir: Seq<char>,
    segs: Seq<Seq<char>>,
) -> (Seq<EditView>, Seq<Seq<char>>) {
    let parent = segs.drop_last();
    let name = segs.last();
    match ws.declaring(dir, parent) {
        Some(file) => {
            let ls = lines_of(value_of(ws.files@, plain(file))->0@);
            (
                seq![
                    (EditView {
                        path: file,
                        line: last_declaration(ls, ls.len() as int) as usize,
                        before: Seq::empty(),
                        after: "mod "@ + name + ";"@,
                        reason: "declare `mod "@ + name + ";` in its new parent"@,
                        kind: EditKind::Insert,
                    }),
                ],
                seq![],
            )
        },
        None => (
            seq![],
            seq![
                "the new parent module for `"@ + joined(segs, "::"@)
                    + "` does not exist yet — create it and add `mod "@ + name + ";` (path: "@
                    + expected_parent(dir, parent) + ")"@,
            ],
        ),
    }
}

/// The warnings about relative paths.
pub open spec fn relative_warnings(ws: Workspace, from: Seq<char>, name: Seq<char>) -> Seq<
    Seq<char>,
> {
    let hits = relative_hits(ws.files@, name, ws.files@.len() as int);
    (if hits > 0 {
        seq![
            dec(hits as nat) + " relative reference(s) to `"@ + name
                + "` via super::/self:: — the module-path resolver rewrites only `crate::`-absolute paths; review these by hand (the SCIP resolver will resolve them, ADR 0134)"@,
        ]
    } else {
        seq![]
    }) + (match value_of(ws.files@, plain(from)) {
        Some(text) => if occurs(text@, "super::"@) || occurs(text@, "self::"@) {
            seq![
                from
                    + " itself uses super::/self:: — its module path changed, so those relative paths may now resolve differently; review"@,
            ]
        } else {
            seq![]
        },
        None => seq![],
    })
}

/// The plan for a move that no resolver takes on.
pub open spec fn unclaimed_plan(from: Seq<char>, to: Seq<char>) -> PlanView {
    PlanView {
        from,
        to,
        edits: seq![],
        warnings: seq![
            "no resolver claims "@ + from
                + " — bare rename only (no reference rewrites computed)"@,
        ],
    }
}

/// The plan for the move of a Rust file.
pub open spec fn module_plan(ws: Workspace, from: Seq<char>, to: Seq<char>) -> PlanView {
    match (segments(from), segments(to)) {
        (Some(f), Some(t)) => if f.len() == 0 || t.len() == 0 {
            PlanView {
                from,
                to,
                edits: seq![],
                warnings: seq![
                    "move touches a crate root (lib.rs/main.rs); refusing — that is a crate restructure, not a module move"@,
                ],
            }
        } else {
            let dir = src_dir(from);
            let out = removal(ws, dir, f.drop_last(), f.last());
            let in_ = insertion(ws, dir, t);
            let prior = "crate::"@ + joined(f, "::"@);
            let new = "crate::"@ + joined(t, "::"@);
            PlanView {
                from,
                to,
                edits: arranged(
                    out.0 + in_.0 + gather(
                        ws.files@.len() as int,
                        file_rewrites(ws.files@, prior, new),
                    ),
                ),
                warnings: out.1 + in_.1 + relative_warnings(ws, from, f.last()),
            }
        },
        _ => PlanView {
            from,
            to,
            edits: seq![],
            warnings: seq![
                "cannot derive a module path for "@ + from + " → "@ + to
                    + "; emitting bare rename only"@,
            ],
        },
    }
}

/// Whether a path is that of a Rust file somewhere under a `src` directory.
pub open spec fn rust_source(path: Seq<char>) -> bool {
    extension_of(path) == Some("rs"@) && components_of(path).contains("src"@)
}

/// What turns a move into a plan. A resolver takes on the moves that it claims.
pub trait ReferenceResolver {
    /// Whether the resolver takes on a move.
    spec fn claimed(&self, mv: Move) -> bool;

    /// What the resolver plans for a move.
    spec fn planned(&self, ws: Workspace, mv: Move) -> PlanView;

    /// Whether the resolver takes on a move.
    fn claims(&self, mv: &Move) -> (r: bool)
        ensures
            r == self.claimed(*mv),
    ;

    /// Plans a move; nothing is changed.
    fn plan(&self, ws: &Workspace, mv: &Move) -> (r: MovePlan)
        ensures
            r.says(self.planned(*ws, *mv)),
    ;
}

/// Resolves the moves of Rust files by their module paths: it moves the `mod` declaration and
/// rewrites absolute `crate::` paths. Relative paths it leaves alone and warns about.
#[derive(Debug, Clone, Copy)]
pub struct RustModuleResolver;

fn copy_move(mv: &Move) -> (r: Move)
    ensures
        r == *mv,
{
    Move { from: mv.from.clone(), to: mv.to.clone() }
}

fn plan_removal(
    ws: &Workspace,
    dir: &str,
    segs: &Vec<String>,
    edits: &mut Vec<Edit>,
    warnings: &mut Vec<String>,
)
    requires
        segs.len() > 0,
    ensures
        edit_views(final(edits)@) == edit_views(old(edits)@) + removal(
            *ws,
            dir@,
            texts(segs@).drop_last(),
            texts(segs@).last(),
        ).0,
        texts(final(warnings)@) == texts(old(warnings)@) + removal(
            *ws,
            dir@,
            texts(segs@).drop_last(),
            texts(segs@).last(),
        ).1,
{
    let n = segs.len() - 1;
    let name = &segs[n];
    let ghost es = edit_views(edits@);
    let ghost wa = texts(warnings@);
    assert(texts(segs@).take(n as int) =~= texts(segs@).drop_last());
    assert(texts(segs@).last() == name@);
    match ws.find_declaring(dir, segs, n) {
        Some(file) => {
            let text = ws.files.get(file.as_str()).unwrap();
            let ls = lines(text.as_str());
            match find_mod_decl(&ls, name.as_str()) {
                Some(i) => {
                    let e = Edit {
                        path: file,
                        line: i + 1,
                        before: ls[i].clone(),
                        after: String::new(),
                        reason: cat3("remove `mod ", name.as_str(), ";` from its old parent"),
                        kind: EditKind::Delete,
                    };
                    proof {
                        assert(texts(ls@)[i as int] == ls@[i as int]@);
                        assert(e.after@ =~= Seq::<char>::empty());
                        assert(edit_views(edits@.push(e)) =~= es.push(e@));
                    }
                    edits.push(e);
                },
                None => {
                    put(
                        warnings,
                        cat5(
                            "expected `mod ",
                            name.as_str(),
                            ";` in ",
                            file.as_str(),
                            " but did not find it (macro-generated module, or already absent?)",
                        ),
                    );
                },
            }
        },
        None => {
            put(
                warnings,
                cat3(
                    "could not locate the module file that declares `mod ",
                    name.as_str(),
                    ";`",
                ),
            );
        },
    }
    assert(edit_views(edits@) =~= es + removal(
        *ws,
        dir@,
        texts(segs@).drop_last(),
        texts(segs@).last(),
    ).0);
    assert(texts(warnings@) =~= wa + removal(
        *ws,
        dir@,
        texts(segs@).drop_last(),
        texts(segs@).last(),
    ).1);
}

fn plan_insertion(
    ws: &Workspace,
    dir: &str,
    segs: &Vec<String>,
    edits: &mut Vec<Edit>,
    warnings: &mut Vec<String>,
)
    requires
        segs.len() > 0,
    ensures
        edit_views(final(edits)@) == edit_views(old(edits)@) + insertion(*ws, dir@, texts(segs@)).0,
        texts(final(warnings)@) == texts(old(warnings)@) + insertion(*ws, dir@, texts(segs@)).1,
{
    let n = segs.len() - 1;
    let name = &segs[n];
    let ghost es = edit_views(edits@);
    let ghost wa = texts(warnings@);
    assert(texts(segs@).take(n as int) =~= texts(segs@).drop_last());
    assert(texts(segs@).last() == name@);
    match ws.find_declaring(dir, segs, n) {
        Some(file) => {
            let text = ws.files.get(file.as_str()).unwrap();
            let ls = lines(text.as_str());
            let e = Edit {
                path: file,
                line: last_mod_line(&ls),
                before: String::new(),
                after: cat3("mod ", name.as_str(), ";"),
                reason: cat3("declare `mod ", name.as_str(), ";` in its new parent"),
                kind: EditKind::Insert,
            };
            proof {
                assert(texts(ls@).len() == ls@.len());
                assert(e.before@ =~= Seq::<char>::empty());
                assert(edit_views(edits@.push(e)) =~= es.push(e@));
            }
            edits.push(e);
        },
        None => {
            let mut w = cat5(
                "the new parent module for `",
                join(segs, "::").as_str(),
                "` does not exist yet — create it and add `mod ",
                name.as_str(),
                ";` (path: ",
            );
            w.append(write_expected(dir, segs, n).as_str());
            w.append(")");
            put(warnings, w);
        },
    }
    assert(edit_views(edits@) =~= es + insertion(*ws, dir@, texts(segs@)).0);
    assert(texts(warnings@) =~= wa + insertion(*ws, dir@, texts(segs@)).1);
}

fn plan_rewrites(ws: &Workspace, prior: &str, new: &str, edits: &mut Vec<Edit>)
    requires
        prior@.len() > 0,
    ensures
        edit_views(final(edits)@) == edit_views(old(edits)@) + gather(
            ws.files@.len() as int,
            file_rewrites(ws.files@, prior@, new@),
        ),
{
    let ghost base = edit_views(edits@);
    let total = ws.files.len();
    let mut i: usize = 0;
    while i < total
        invariant
            i <= total == ws.files@.len(),
            prior@.len() > 0,
            edit_views(edits@) =~= base + gather(
                i as int,
                file_rewrites(ws.files@, prior@, new@),
            ),
        decreases total - i,
    {
        let path = ws.files.name(i);
        let ls = lines(ws.files.value(i).as_str());
        let ghost so_far = edit_views(edits@);
        let ghost all = texts(ls@);
        let mut k: usize = 0;
        while k < ls.len()
            invariant
                k <= ls.len(),
                all == texts(ls@),
                prior@.len() > 0,
                edit_views(edits@) =~= so_far + gather(
                    k as int,
                    line_rewrite(path@, all, prior@, new@),
                ),
            decreases ls.len() - k,
        {
            assert(all[k as int] == ls@[k as int]@);
            match replace_path_prefix(ls[k].as_str(), prior, new) {
                Some(after) => {
                    let e = Edit {
                        path: path.clone(),
                        line: k + 1,
                        before: ls[k].clone(),
                        after,
                        reason: cat5("rewrite `", prior, "` → `", new, "`"),
                        kind: EditKind::Replace,
                    };
                    let ghost now = edit_views(edits@);
                    assert(edit_views(edits@.push(e)) =~= now.push(e@));
                    edits.push(e);
                },
                None => {},
            }
            k += 1;
        }
        i += 1;
    }
}

pub(crate) fn add_capped(a: usize, b: usize) -> (r: usize)
    ensures
        r == capped(a + b),
{
    if b > usize::MAX - a {
        usize::MAX
    } else {
        a + b
    }
}

fn count_relative(ws: &Workspace, name: &str) -> (r: usize)
    ensures
        r == relative_hits(ws.files@, name@, ws.files@.len() as int),
{
    proof {
        reveal_strlit("super::");
        reveal_strlit("self::");
    }
    let up = cat2("super::", name);
    let here = cat2("self::", name);
    let total = ws.files.len();
    let mut hits: usize = 0;
    let mut i: usize = 0;
    while i < total
        invariant
            i <= total == ws.files@.len(),
            up@ == "super::"@ + name@,
            here@ == "self::"@ + name@,
            up@.len() > 0,
            here@.len() > 0,
            hits == relative_hits(ws.files@, name@, i as int),
        decreases total - i,
    {
        let text = ws.files.value(i);
        hits = add_capped(hits, count(text.as_str(), up.as_str()));
        hits = add_capped(hits, count(text.as_str(), here.as_str()));
        i += 1;
    }
    hits
}

fn warn_relative(ws: &Workspace, from: &str, name: &str, warnings: &mut Vec<String>)
    ensures
        texts(final(warnings)@) == texts(old(warnings)@) + relative_warnings(*ws, from@, name@),
{
    let ghost wa = texts(warnings@);
    let hits = count_relative(ws, name);
    if hits > 0 {
        put(
            warnings,
            cat4(
                decimal_usize(hits).as_str(),
                " relative reference(s) to `",
                name,
                "` via super::/self:: — the module-path resolver rewrites only `crate::`-absolute paths; review these by hand (the SCIP resolver will resolve them, ADR 0134)",
            ),
        );
    }
    match ws.files.get(from) {
        Some(text) => {
            if contains(text.as_str(), "super::") || contains(text.as_str(), "self::") {
                put(
                    warnings,
                    cat2(
                        from,
                        " itself uses super::/self:: — its module path changed, so those relative paths may now resolve differently; review",
                    ),
                );
            }
        },
        None => {},
    }
    assert(texts(warnings@) =~= wa + relative_warnings(*ws, from@, name@));
}

fn one_warning(mv: &Move, warning: String) -> (r: MovePlan)
    ensures
        r.says(
            PlanView { from: mv.from@, to: mv.to@, edits: seq![], warnings: seq![warning@] },
        ),
{
    let mut warnings: Vec<String> = Vec::new();
    put(&mut warnings, warning);
    let r = MovePlan { mv: Some(copy_move(mv)), edits: Vec::new(), warnings };
    assert(edit_views(r.edits@) =~= seq![]);
    assert(texts(r.warnings@) =~= seq![warning@]);
    r
}

impl ReferenceResolver for RustModuleResolver {
    open spec fn claimed(&self, mv: Move) -> bool {
        rust_source(mv.from@)
    }

    open spec fn planned(&self, ws: Workspace, mv: Move) -> PlanView {
        module_plan(ws, mv.from@, mv.to@)
    }

    fn claims(&self, mv: &Move) -> (r: bool) {
        let rust = match extension(mv.from.as_str()) {
            Some(e) => same(e.as_str(), "rs"),
            None => false,
        };
        rust && holds(&components(mv.from.as_str()), "src")
    }

    fn plan(&self, ws: &Workspace, mv: &Move) -> (r: MovePlan) {
        let (f, t) = match (mod_segments(mv.from.as_str()), mod_segments(mv.to.as_str())) {
            (Some(f), Some(t)) => (f, t),
            _ => {
                return one_warning(
                    mv,
                    cat5(
                        "cannot derive a module path for ",
                        mv.from.as_str(),
                        " → ",
                        mv.to.as_str(),
                        "; emitting bare rename only",
                    ),
                );
            },
        };
        if f.len() == 0 || t.len() == 0 {
            return one_warning(
                mv,
                "move touches a crate root (lib.rs/main.rs); refusing — that is a crate restructure, not a module move".to_owned(),
            );
        }
        let ghost fs = texts(f@);
        let ghost ts = texts(t@);
        let dir = write_src_dir(mv.from.as_str());
        let mut edits: Vec<Edit> = Vec::new();
        let mut warnings: Vec<String> = Vec::new();
        assert(edit_views(edits@) =~= Seq::<EditView>::empty());
        assert(texts(warnings@) =~= Seq::<Seq<char>>::empty());
        plan_removal(ws, dir.as_str(), &f, &mut edits, &mut warnings);
        plan_insertion(ws, dir.as_str(), &t, &mut edits, &mut warnings);
        let prior = cat2("crate::", join(&f, "::").as_str());
        let new = cat2("crate::", join(&t, "::").as_str());
        proof {
            reveal_strlit("crate::");
        }
        plan_rewrites(ws, prior.as_str(), new.as_str(), &mut edits);
        assert(fs.last() == f@[f@.len() - 1]@);
        warn_relative(ws, mv.from.as_str(), f[f.len() - 1].as_str(), &mut warnings);
        proof {
            let goal = module_plan(*ws, mv.from@, mv.to@);
            arranged_mapped(edits@, |e: Edit| e@);
            assert(texts(warnings@) =~= goal.warnings);
            assert(edit_views(edits@) =~= removal(*ws, dir@, fs.drop_last(), fs.last()).0 + insertion(
                *ws,
                dir@,
                ts,
            ).0 + gather(ws.files@.len() as int, file_rewrites(ws.files@, prior@, new@)));
        }
        MovePlan { mv: Some(copy_move(mv)), edits: arrange(edits), warnings }
    }
}

/// The plan of a move.
pub open spec fn fresh_plan(ws: Workspace, from: Seq<char>, to: Seq<char>) -> PlanView {
    if rust_source(from) {
        module_plan(ws, from, to)
    } else {
        unclaimed_plan(from, to)
    }
}

/// Plans a move with the first resolver that claims it.
pub fn plan_move(ws: &Workspace, mv: &Move) -> (r: MovePlan)
    ensures
        r.says(fresh_plan(*ws, mv.from@, mv.to@)),
{
    let resolver = RustModuleResolver;
    if resolver.claims(mv) {
        return resolver.plan(ws, mv);
    }
    one_warning(
        mv,
        cat3(
            "no resolver claims ",
            mv.from.as_str(),
            " — bare rename only (no reference rewrites computed)",
        ),
    )
}

impl Workspace {
    /// A workspace of files given by path and contents, each under the plain spelling of its path;
    /// of two files with one path the later one counts.
    pub fn from_pairs(root: String, pairs: Vec<(String, String)>) -> (r: Workspace)
        ensures
            r.root == root,
            forall|k: Seq<char>| #[trigger]
                value_of(r.files@, k) == last_pair(pairs@, k, pairs@.len() as int),
    {
        let mut files: Table<String, true> = Table::new();
        let mut i: usize = 0;
        while i < pairs.len()
            invariant
                i <= pairs.len(),
                forall|k: Seq<char>| #[trigger]
                    value_of(files@, k) == last_pair(pairs@, k, i as int),
            decreases pairs.len() - i,
        {
            files.insert(pairs[i].0.clone(), pairs[i].1.clone());
            i += 1;
        }
        Workspace { root, files }
    }
}

/// The contents that the last of the first `n` pairs gives to a path in its plain spelling.
pub open spec fn last_pair(pairs: Seq<(String, String)>, path: Seq<char>, n: int) -> Option<String>
    decreases n,
{
    if n <= 0 {
        None
    } else if plain(pairs[n - 1].0@) == path {
        Some(pairs[n - 1].1)
    } else {
        last_pair(pairs, path, n - 1)
    }
}

// ── applying edits ─────────────────────────────────────────────────────────────────────

/// What an edit does to the lines of its file.
pub struct StepView {
    pub kind: EditKind,
    pub line: usize,
    pub after: Seq<char>,
}

/// What edits do to the lines of their file.
pub open spec fn steps(edits: Seq<&Edit>) -> Seq<StepView> {
    edits.map_values(|e: &Edit| StepView { kind: e.kind, line: e.line, after: e.after@ })
}

/// Whether a line is there for a step: a replaced or deleted one among the `n` lines, and the
/// one to insert after, which may be line 0.
pub open spec fn in_range(s: StepView, n: int) -> bool {
    match s.kind {
        EditKind::Insert => s.line <= n,
        _ => 1 <= s.line <= n,
    }
}

/// The line of a step that is not there.
pub open spec fn stale_line(ss: Seq<StepView>, n: int) -> spec_fn(int) -> Seq<usize> {
    |i: int|
        if in_range(ss[i], n) {
            seq![]
        } else {
            seq![ss[i].line]
        }
}

/// The lines of steps that are not there.
pub open spec fn stale_lines(ss: Seq<StepView>, n: int) -> Seq<usize> {
    gather(ss.len() as int, stale_line(ss, n))
}

/// How many of the first `n` lines end in `term`.
pub open spec fn terms(ls: Seq<Piece>, term: Seq<char>, n: int) -> nat
    decreases n,
{
    if n <= 0 {
        0
    } else {
        terms(ls, term, n - 1) + (if ls[n - 1].term == term {
            1nat
        } else {
            0nat
        })
    }
}

/// The terminator that most lines have.
pub open spec fn dominant(ls: Seq<Piece>) -> Seq<char> {
    if terms(ls, "\r\n"@, ls.len() as int) > terms(ls, "\n"@, ls.len() as int) {
        "\r\n"@
    } else {
        "\n"@
    }
}

/// Whether a step deletes a line.
pub open spec fn deleted(ss: Seq<StepView>, line: int) -> bool {
    exists|i: int|
        0 <= i < ss.len() && (#[trigger] ss[i]).kind == EditKind::Delete && ss[i].line == line
}

/// The text that the first `n` steps give a line instead of its own: that of the last of them
/// that replaces it.
pub open spec fn replacement(ss: Seq<StepView>, line: int, n: int) -> Option<Seq<char>>
    decreases n,
{
    if n <= 0 {
        None
    } else if ss[n - 1].kind == EditKind::Replace && ss[n - 1].line == line {
        Some(ss[n - 1].after)
    } else {
        replacement(ss, line, n - 1)
    }
}

/// The texts that the first `n` steps put behind a line. Each step puts its text right behind the
/// line, so a later one comes before those of earlier ones.
pub open spec fn insertions(ss: Seq<StepView>, line: int, n: int) -> Seq<Seq<char>>
    decreases n,
{
    if n <= 0 {
        Seq::empty()
    } else if ss[n - 1].kind == EditKind::Insert && ss[n - 1].line == line {
        seq![ss[n - 1].after] + insertions(ss, line, n - 1)
    } else {
        insertions(ss, line, n - 1)
    }
}

/// Whether a line is the last one, and nothing ends it.
pub open spec fn is_open(ls: Seq<Piece>, line: int) -> bool {
    0 < line && line == ls.len() && ls[line - 1].term.len() == 0
}

/// What becomes of a line itself: nothing where it is deleted, else the line or what replaces it,
/// with the terminator that it has. Only a line that nothing ends gets `term` when another is put
/// behind it.
pub open spec fn kept_line(ls: Seq<Piece>, term: Seq<char>, ss: Seq<StepView>, line: int) -> Seq<
    Piece,
> {
    if line <= 0 || deleted(ss, line) {
        seq![]
    } else {
        seq![
            Piece {
                text: match replacement(ss, line, ss.len() as int) {
                    Some(after) => after,
                    None => ls[line - 1].text,
                },
                term: if is_open(ls, line) && insertions(ss, line, ss.len() as int).len() > 0 {
                    term
                } else {
                    ls[line - 1].term
                },
            },
        ]
    }
}

/// What is put behind a line, each ended by `term`; behind a line that nothing ends, nothing ends
/// the last of them.
pub open spec fn new_lines(ls: Seq<Piece>, term: Seq<char>, ss: Seq<StepView>, line: int) -> Seq<
    Piece,
> {
    let ts = insertions(ss, line, ss.len() as int);
    Seq::new(
        ts.len(),
        |k: int|
            Piece {
                text: ts[k],
                term: if is_open(ls, line) && k == ts.len() - 1 {
                    ls[line - 1].term
                } else {
                    term
                },
            },
    )
}

/// What stands in the place of a line.
pub open spec fn in_place(ls: Seq<Piece>, term: Seq<char>, ss: Seq<StepView>) -> spec_fn(int) -> Seq<
    Piece,
> {
    |line: int| kept_line(ls, term, ss, line) + new_lines(ls, term, ss, line)
}

/// The lines after the steps. Every step speaks of the lines as they were before all of them.
pub open spec fn edited_lines(ls: Seq<Piece>, term: Seq<char>, ss: Seq<StepView>) -> Seq<Piece> {
    gather(ls.len() as int + 1, in_place(ls, term, ss))
}

/// A line with its terminator.
pub open spec fn whole_line(ls: Seq<Piece>) -> spec_fn(int) -> Seq<char> {
    |i: int| ls[i].text + ls[i].term
}

/// The text that lines make up.
pub open spec fn unlines(ls: Seq<Piece>) -> Seq<char> {
    gather(ls.len() as int, whole_line(ls))
}

/// What edits make of a text: the lines that are not there, in order and each once, or the text
/// after the edits.
pub open spec fn edited(text: Seq<char>, ss: Seq<StepView>) -> Result<Seq<char>, Seq<usize>> {
    let ls = pieces(text);
    let stale = stale_lines(ss, ls.len() as int);
    if stale.len() > 0 {
        Err(canonical(stale))
    } else {
        Ok(unlines(edited_lines(ls, dominant(ls), ss)))
    }
}

fn is_in_range(kind: EditKind, line: usize, n: usize) -> (r: bool)
    ensures
        forall|after: Seq<char>| r == in_range(#[trigger] mk_step(kind, line, after), n as int),
{
    match kind {
        EditKind::Insert => line <= n,
        _ => 1 <= line && line <= n,
    }
}

spec fn mk_step(kind: EditKind, line: usize, after: Seq<char>) -> StepView {
    StepView { kind, line, after }
}

fn dominant_term(ls: &Vec<Line>) -> (r: String)
    ensures
        r@ == dominant(line_views(ls@)),
{
    let ghost v = line_views(ls@);
    let mut crlf: usize = 0;
    let mut lf: usize = 0;
    let mut i: usize = 0;
    while i < ls.len()
        invariant
            i <= ls.len(),
            v == line_views(ls@),
            crlf == terms(v, "\r\n"@, i as int),
            lf == terms(v, "\n"@, i as int),
            crlf <= i,
            lf <= i,
        decreases ls.len() - i,
    {
        assert(v[i as int] == ls@[i as int]@);
        if same(ls[i].term.as_str(), "\r\n") {
            crlf += 1;
        }
        if same(ls[i].term.as_str(), "\n") {
            lf += 1;
        }
        i += 1;
    }
    if crlf > lf {
        "\r\n".to_owned()
    } else {
        "\n".to_owned()
    }
}

fn is_deleted(edits: &[&Edit], line: usize) -> (r: bool)
    ensures
        r == deleted(steps(edits@), line as int),
{
    let ghost ss = steps(edits@);
    let mut i: usize = 0;
    while i < edits.len()
        invariant
            i <= edits.len(),
            ss == steps(edits@),
            forall|k: int|
                0 <= k < i ==> !((#[trigger] ss[k]).kind == EditKind::Delete && ss[k].line == line),
        decreases edits.len() - i,
    {
        let e = edits[i];
        assert(ss[i as int] == mk_step(e.kind, e.line, e.after@));
        if e.kind == EditKind::Delete && e.line == line {
            return true;
        }
        i += 1;
    }
    false
}

fn find_replacement(edits: &[&Edit], line: usize) -> (r: Option<String>)
    ensures
        text_opt(r) == replacement(steps(edits@), line as int, edits@.len() as int),
{
    let ghost ss = steps(edits@);
    let mut i: usize = edits.len();
    while i > 0
        invariant
            i <= edits.len(),
            ss == steps(edits@),
            replacement(ss, line as int, edits@.len() as int) == replacement(
                ss,
                line as int,
                i as int,
            ),
        decreases i,
    {
        let e = edits[i - 1];
        assert(ss[i - 1] == mk_step(e.kind, e.line, e.after@));
        if e.kind == EditKind::Replace && e.line == line {
            return Some(e.after.clone());
        }
        i -= 1;
    }
    None
}

fn list_insertions(edits: &[&Edit], line: usize) -> (r: Vec<String>)
    ensures
        texts(r@) == insertions(steps(edits@), line as int, edits@.len() as int),
{
    let ghost ss = steps(edits@);
    let mut out: Vec<String> = Vec::new();
    let mut i: usize = edits.len();
    while i > 0
        invariant
            i <= edits.len(),
            ss == steps(edits@),
            insertions(ss, line as int, edits@.len() as int) =~= texts(out@) + insertions(
                ss,
                line as int,
                i as int,
            ),
        decreases i,
    {
        let e = edits[i - 1];
        assert(ss[i - 1] == mk_step(e.kind, e.line, e.after@));
        if e.kind == EditKind::Insert && e.line == line {
            put(&mut out, e.after.clone());
        }
        i -= 1;
    }
    out
}

/// Adds what stands in the place of a line.
fn rewrite_line(out: &mut Vec<Line>, ls: &Vec<Line>, term: &str, edits: &[&Edit], line: usize)
    requires
        line <= ls@.len(),
    ensures
        line_views(final(out)@) == line_views(old(out)@) + (in_place(
            line_views(ls@),
            term@,
            steps(edits@),
        ))(line as int),
{
    let ghost v = line_views(ls@);
    let ghost ss = steps(edits@);
    let ghost base = line_views(out@);
    let new = list_insertions(edits, line);
    let ghost ts = texts(new@);
    let open = if line > 0 && line == ls.len() {
        assert(v[line - 1] == ls@[line - 1]@);
        chars(ls[line - 1].term.as_str()).len() == 0
    } else {
        false
    };
    assert(open == is_open(v, line as int));
    assert(ss.len() == edits@.len());
    if line > 0 && !is_deleted(edits, line) {
        assert(v[line - 1] == ls@[line - 1]@);
        let text = match find_replacement(edits, line) {
            Some(after) => after,
            None => ls[line - 1].text.clone(),
        };
        let end = if open && new.len() > 0 {
            term.to_owned()
        } else {
            ls[line - 1].term.clone()
        };
        out.push(Line { text, term: end });
    }
    assert(line_views(out@) =~= base + kept_line(v, term@, ss, line as int));
    let ghost kept = line_views(out@);
    let ghost all = new_lines(v, term@, ss, line as int);
    let mut k: usize = 0;
    while k < new.len()
        invariant
            k <= new.len(),
            line <= ls.len(),
            v == line_views(ls@),
            ts == texts(new@),
            ts == insertions(ss, line as int, ss.len() as int),
            all == new_lines(v, term@, ss, line as int),
            open == is_open(v, line as int),
            line_views(out@) =~= kept + all.take(k as int),
        decreases new.len() - k,
    {
        assert(ts[k as int] == new@[k as int]@);
        let end = if open && k == new.len() - 1 {
            assert(v[line - 1] == ls@[line - 1]@);
            ls[line - 1].term.clone()
        } else {
            term.to_owned()
        };
        let l = Line { text: new[k].clone(), term: end };
        assert(all[k as int] == l@);
        let ghost before = out@;
        out.push(l);
        assert(line_views(out@) =~= line_views(before).push(l@));
        k += 1;
    }
    assert(all.take(ts.len() as int) =~= all);
    assert(line_views(out@) =~= base + (kept_line(v, term@, ss, line as int) + all));
}

fn write_lines(ls: &Vec<Line>) -> (r: String)
    ensures
        r@ == unlines(line_views(ls@)),
{
    let ghost v = line_views(ls@);
    let mut r = String::new();
    let mut i: usize = 0;
    while i < ls.len()
        invariant
            i <= ls.len(),
            v == line_views(ls@),
            r@ =~= gather(i as int, whole_line(v)),
        decreases ls.len() - i,
    {
        assert(v[i as int] == ls@[i as int]@);
        let ghost before = r@;
        r.append(ls[i].text.as_str());
        r.append(ls[i].term.as_str());
        assert(r@ =~= before + (v[i as int].text + v[i as int].term));
        i += 1;
    }
    r
}

/// Applies the edits of one file to its text. Line numbers speak of the text as it is given,
/// whatever the other edits do. What is not edited keeps every byte, and every line its
/// terminator. Where a line is not there (the plan is stale) nothing is applied, and the lines
/// that are not there are handed back, in order and each once.
pub fn apply_edits(text: &str, edits: &[&Edit]) -> (r: Result<String, Vec<usize>>)
    ensures
        r is Err <==> stale_lines(steps(edits@), pieces(text@).len() as int).len() > 0,
        match r {
            Ok(s) => edited(text@, steps(edits@)) == Ok::<Seq<char>, Seq<usize>>(s@),
            Err(v) => edited(text@, steps(edits@)) == Err::<Seq<char>, Seq<usize>>(v@),
        },
{
    let ls = split_lines(text);
    let ghost v = pieces(text@);
    let ghost ss = steps(edits@);
    assert(ls@.len() == v.len());
    let term = dominant_term(&ls);
    let mut stale: Vec<usize> = Vec::new();
    let mut i: usize = 0;
    while i < edits.len()
        invariant
            i <= edits.len(),
            ss == steps(edits@),
            ls@.len() == v.len(),
            stale@ =~= gather(i as int, stale_line(ss, v.len() as int)),
        decreases edits.len() - i,
    {
        let e = edits[i];
        let ghost sv = mk_step(e.kind, e.line, e.after@);
        assert(ss[i as int] == sv);
        if !is_in_range(e.kind, e.line, ls.len()) {
            stale.push(e.line);
        }
        i += 1;
    }
    if stale.len() > 0 {
        return Err(canon(stale));
    }
    let ghost f = in_place(v, term@, ss);
    let mut out: Vec<Line> = Vec::new();
    rewrite_line(&mut out, &ls, term.as_str(), edits, 0);
    proof {
        reveal_with_fuel(gather, 2);
        assert(line_views(out@) =~= gather(1, f));
    }
    let mut i: usize = 0;
    while i < ls.len()
        invariant
            i <= ls.len() == v.len(),
            v == line_views(ls@),
            ss == steps(edits@),
            f == in_place(v, term@, ss),
            line_views(out@) == gather(i + 1, f),
        decreases ls.len() - i,
    {
        i += 1;
        rewrite_line(&mut out, &ls, term.as_str(), edits, i);
    }
    Ok(write_lines(&out))
}

// ── what applying promises ─────────────────────────────────────────────────────────────

proof fn pieces_make_text(s: Seq<char>, i: int)
    requires
        0 <= i <= s.len(),
    ensures
        unlines(crate::text::pieces_from(s, i)) == s.skip(i),
    decreases s.len() - i,
{
    let ps = crate::text::pieces_from(s, i);
    let j = crate::text::span_from(s, Class::Not('\n'), i);
    crate::text::span_from_bounds(s, Class::Not('\n'), i);
    if i == s.len() {
        assert(ps =~= Seq::<Piece>::empty());
        assert(s.skip(i) =~= Seq::<char>::empty());
    } else if j >= s.len() {
        reveal_with_fuel(gather, 2);
        assert(unlines(ps) =~= s.skip(i));
    } else {
        let rest = crate::text::pieces_from(s, j + 1);
        pieces_make_text(s, j + 1);
        assert(ps.skip(1) =~= rest);
        unlines_cons(ps);
        assert(s[j] == '\n');
        assert(ps[0].text + ps[0].term =~= s.subrange(i, j + 1));
        assert(s.subrange(i, j + 1) + s.skip(j + 1) =~= s.skip(i));
    }
}

proof fn unlines_cons(ps: Seq<Piece>)
    requires
        ps.len() > 0,
    ensures
        unlines(ps) == ps[0].text + ps[0].term + unlines(ps.skip(1)),
{
    cons_upto(ps, ps.len() as int);
}

proof fn cons_upto(ps: Seq<Piece>, n: int)
    requires
        1 <= n <= ps.len(),
    ensures
        gather(n, whole_line(ps)) == ps[0].text + ps[0].term + gather(
            n - 1,
            whole_line(ps.skip(1)),
        ),
    decreases n,
{
    if n == 1 {
        reveal_with_fuel(gather, 2);
        assert(gather(1, whole_line(ps)) =~= ps[0].text + ps[0].term);
        assert(gather(0, whole_line(ps.skip(1))) =~= Seq::<char>::empty());
    } else {
        cons_upto(ps, n - 1);
        assert(ps.skip(1)[n - 2] == ps[n - 1]);
        assert(gather(n, whole_line(ps)) =~= ps[0].text + ps[0].term + gather(
            n - 1,
            whole_line(ps.skip(1)),
        ));
    }
}

/// Splitting a text into lines loses nothing: the lines and their terminators make up the text.
pub proof fn lines_make_text(text: Seq<char>)
    ensures
        unlines(pieces(text)) == text,
{
    pieces_make_text(text, 0);
    assert(text.skip(0) =~= text);
}

/// Edits are refused if and only if the line of one of them is not there: a line past the end, or
/// line 0 for an edit that does not insert.
pub proof fn refused_where_stale(text: Seq<char>, ss: Seq<StepView>)
    ensures
        edited(text, ss) is Err <==> exists|i: int|
            0 <= i < ss.len() && !in_range(#[trigger] ss[i], pieces(text).len() as int),
        edited(text, ss) is Err ==> forall|line: usize| #[trigger]
            edited(text, ss)->Err_0.contains(line) <==> exists|i: int|
                0 <= i < ss.len() && !in_range(#[trigger] ss[i], pieces(text).len() as int)
                    && ss[i].line == line,
{
    let n = pieces(text).len() as int;
    let f = stale_line(ss, n);
    let stale = stale_lines(ss, n);
    assert forall|line: usize| #[trigger] stale.contains(line) <==> exists|i: int|
        0 <= i < ss.len() && !in_range(#[trigger] ss[i], n) && ss[i].line == line by {
        gather_contains(ss.len() as int, f, line);
        if stale.contains(line) {
            let i = choose|i: int| 0 <= i < ss.len() && (#[trigger] f(i)).contains(line);
            assert(!in_range(ss[i], n) && ss[i].line == line);
        }
        if exists|i: int| 0 <= i < ss.len() && !in_range(#[trigger] ss[i], n) && ss[i].line == line {
            let i = choose|i: int|
                0 <= i < ss.len() && !in_range(#[trigger] ss[i], n) && ss[i].line == line;
            assert(f(i)[0] == line);
            assert(f(i).contains(line));
        }
    }
    if stale.len() > 0 {
        assert(stale.contains(stale[0]));
        crate::order::canonical_facts(stale);
        assert forall|line: usize| #[trigger] canonical(stale).contains(line) <==> stale.contains(
            line,
        ) by {
            if stale.contains(line) {
                let c = canonical(stale);
                let i = choose|i: int| 0 <= i < c.len() && #[trigger] c[i].rank() == line.rank();
                crate::order::number_rank_orders(c[i] as int, line as int);
                assert(c[i] == line);
            }
        }
    } else if exists|i: int| 0 <= i < ss.len() && !in_range(#[trigger] ss[i], n) {
        let i = choose|i: int| 0 <= i < ss.len() && !in_range(#[trigger] ss[i], n);
        assert(stale.contains(ss[i].line));
    }
}

/// Without edits a text stays as it is, byte for byte.
pub proof fn no_edits_no_change(text: Seq<char>)
    ensures
        edited(text, Seq::<StepView>::empty()) == Ok::<Seq<char>, Seq<usize>>(text),
{
    let ss = Seq::<StepView>::empty();
    let ls = pieces(text);
    lines_make_text(text);
    untouched_upto(ls, dominant(ls), ss, ls.len() as int);
    assert(ls.take(ls.len() as int) =~= ls);
}

proof fn untouched_upto(ls: Seq<Piece>, term: Seq<char>, ss: Seq<StepView>, n: int)
    requires
        0 <= n <= ls.len(),
        ss.len() == 0,
    ensures
        gather(n + 1, in_place(ls, term, ss)) == ls.take(n),
    decreases n,
{
    let f = in_place(ls, term, ss);
    if n > 0 {
        untouched_upto(ls, term, ss, n - 1);
        untouched_line_stays(ls, term, ss, n);
        assert(gather(n + 1, f) =~= ls.take(n));
    } else {
        reveal_with_fuel(gather, 2);
        assert(f(0) =~= Seq::<Piece>::empty());
        assert(gather(1, f) =~= ls.take(0));
    }
}

proof fn nothing_there(ss: Seq<StepView>, line: int, n: int)
    requires
        0 <= n <= ss.len(),
        forall|i: int| 0 <= i < ss.len() ==> (#[trigger] ss[i]).line != line,
    ensures
        replacement(ss, line, n) is None,
        insertions(ss, line, n).len() == 0,
    decreases n,
{
    if n > 0 {
        nothing_there(ss, line, n - 1);
        assert(ss[n - 1].line != line);
    }
}

/// A line that no edit speaks of stays as it is, with its terminator, and nothing comes behind it.
pub proof fn untouched_line_stays(
    ls: Seq<Piece>,
    term: Seq<char>,
    ss: Seq<StepView>,
    line: int,
)
    requires
        1 <= line <= ls.len(),
        forall|i: int| 0 <= i < ss.len() ==> (#[trigger] ss[i]).line != line,
    ensures
        (in_place(ls, term, ss))(line) == seq![ls[line - 1]],
{
    nothing_there(ss, line, ss.len() as int);
    assert((in_place(ls, term, ss))(line) =~= seq![ls[line - 1]]);
}

/// A line that an edit replaces, and none deletes, keeps its terminator and gets the text of the
/// last edit that replaces it; one that an edit deletes is gone. Only a last line that nothing
/// ends gains a terminator, where another line is put behind it.
pub proof fn edited_line_keeps_end(
    ls: Seq<Piece>,
    term: Seq<char>,
    ss: Seq<StepView>,
    line: int,
)
    requires
        1 <= line <= ls.len(),
    ensures
        deleted(ss, line) ==> kept_line(ls, term, ss, line).len() == 0,
        !deleted(ss, line) ==> kept_line(ls, term, ss, line).len() == 1,
        !deleted(ss, line) && !(is_open(ls, line) && insertions(ss, line, ss.len() as int).len()
            > 0) ==> kept_line(ls, term, ss, line)[0].term == ls[line - 1].term,
        !deleted(ss, line) && replacement(ss, line, ss.len() as int) is Some ==> kept_line(
            ls,
            term,
            ss,
            line,
        )[0].text == replacement(ss, line, ss.len() as int)->0,
        !deleted(ss, line) && replacement(ss, line, ss.len() as int) is None ==> kept_line(
            ls,
            term,
            ss,
            line,
        )[0].text == ls[line - 1].text,
{
}

// ── what a plan promises ───────────────────────────────────────────────────────────────

proof fn hit_from(s: Seq<char>, prior: Seq<char>, new: Seq<char>, i: int)
    requires
        prior.len() > 0,
        0 <= i,
    ensures
        rewritten_from(s, prior, new, i).1 <==> exists|j: int| i <= j && #[trigger] prefix_at(s, prior, j),
    decreases s.len() - i,
{
    if i >= s.len() {
        assert forall|j: int| i <= j implies !#[trigger] prefix_at(s, prior, j) by {}
    } else if prefix_at(s, prior, i) {
    } else {
        hit_from(s, prior, new, i + 1);
        if exists|j: int| i <= j && #[trigger] prefix_at(s, prior, j) {
            let j = choose|j: int| i <= j && #[trigger] prefix_at(s, prior, j);
            assert(j != i);
            assert(i + 1 <= j && prefix_at(s, prior, j));
        }
    }
}

/// A line is rewritten if and only if it refers to the path: a whole path prefix stands in it.
pub proof fn rewritten_where_referred(s: Seq<char>, prior: Seq<char>, new: Seq<char>)
    requires
        prior.len() > 0,
    ensures
        rewritten(s, prior, new) is Some <==> exists|j: int| 0 <= j && #[trigger] prefix_at(s, prior, j),
{
    hit_from(s, prior, new, 0);
}

/// The path by which the rest of a crate refers to the module of a file.
pub open spec fn crate_path(file: Seq<char>) -> Seq<char> {
    match segments(file) {
        Some(segs) => "crate::"@ + joined(segs, "::"@),
        None => Seq::empty(),
    }
}

/// Whether a move is one from module to module, neither of them the root of a crate.
pub open spec fn between_modules(from: Seq<char>, to: Seq<char>) -> bool {
    &&& segments(from) is Some
    &&& segments(from)->0.len() > 0
    &&& segments(to) is Some
    &&& segments(to)->0.len() > 0
}

/// No reference is missed: every line of every file that refers to the moved module by its path is
/// replaced by the line that refers to where it goes.
pub proof fn every_reference_is_followed(
    ws: Workspace,
    from: Seq<char>,
    to: Seq<char>,
    k: int,
    i: int,
    j: int,
)
    requires
        between_modules(from, to),
        0 <= k < ws.files@.len(),
        0 <= i < lines_of(ws.files@[k].1@).len(),
        0 <= j,
        prefix_at(lines_of(ws.files@[k].1@)[i], crate_path(from), j),
    ensures
        exists|e: EditView| #[trigger]
            module_plan(ws, from, to).edits.contains(e) && e.path == ws.files@[k].0 && e.line == (i
                + 1) as usize && e.kind == EditKind::Replace && Some(e.after) == rewritten(
                lines_of(ws.files@[k].1@)[i],
                crate_path(from),
                crate_path(to),
            ),
{
    let prior = crate_path(from);
    let new = crate_path(to);
    let ls = lines_of(ws.files@[k].1@);
    reveal_strlit("crate::");
    assert(prior.len() > 0);
    rewritten_where_referred(ls[i], prior, new);
    let one = line_rewrite(ws.files@[k].0, ls, prior, new);
    let e = one(i)[0];
    assert(one(i).contains(e));
    gather_contains(ls.len() as int, one, e);
    let all = file_rewrites(ws.files@, prior, new);
    assert(all(k).contains(e));
    gather_contains(ws.files@.len() as int, all, e);
    let rewrites = gather(ws.files@.len() as int, all);
    let dir = src_dir(from);
    let f = segments(from)->0;
    let out = removal(ws, dir, f.drop_last(), f.last());
    let in_ = insertion(ws, dir, segments(to)->0);
    concat_contains(out.0 + in_.0, rewrites, e);
    crate::order::arranged_contains(out.0 + in_.0 + rewrites, e);
    assert(module_plan(ws, from, to).edits.contains(e));
}

/// Whether the line of an edit is there.
pub open spec fn applies_to(e: EditView, ws: Workspace) -> bool {
    &&& named(ws.files@, plain(e.path))
    &&& in_range(
        StepView { kind: e.kind, line: e.line, after: e.after },
        lines_of(value_of(ws.files@, plain(e.path))->0@).len() as int,
    )
}

proof fn rewrites_apply(ws: Workspace, prior: Seq<char>, new: Seq<char>, e: EditView)
    requires
        crate::order::in_order(true, ws.files@),
        crate::order::all_keys(true, ws.files@),
        forall|k: int|
            0 <= k < ws.files@.len() ==> lines_of((#[trigger] ws.files@[k]).1@).len() < usize::MAX,
        gather(ws.files@.len() as int, file_rewrites(ws.files@, prior, new)).contains(e),
    ensures
        applies_to(e, ws),
{
    let all = file_rewrites(ws.files@, prior, new);
    gather_contains(ws.files@.len() as int, all, e);
    let k = choose|k: int| 0 <= k < ws.files@.len() && (#[trigger] all(k)).contains(e);
    let ls = lines_of(ws.files@[k].1@);
    let one = line_rewrite(ws.files@[k].0, ls, prior, new);
    gather_contains(ls.len() as int, one, e);
    let i = choose|i: int| 0 <= i < ls.len() && (#[trigger] one(i)).contains(e);
    let found = one(i);
    let m = choose|m: int| 0 <= m < found.len() && found[m] == e;
    crate::order::row_unique(true, ws.files@, k);
    assert(e.path == ws.files@[k].0);
}

proof fn declaration_bounds(ls: Seq<Seq<char>>, name: Seq<char>, i: int)
    requires
        0 <= i,
    ensures
        match declaration_from(ls, name, i) {
            Some(k) => i <= k < ls.len(),
            None => true,
        },
    decreases ls.len() - i,
{
    if i < ls.len() {
        declaration_bounds(ls, name, i + 1);
    }
}

proof fn last_bounds(ls: Seq<Seq<char>>, n: int)
    requires
        0 <= n <= ls.len(),
    ensures
        0 <= last_declaration(ls, n) <= n,
    decreases n,
{
    if n > 0 {
        last_bounds(ls, n - 1);
    }
}

/// A fresh plan is not out of date: every edit is one of a file that is there, at a line that is
/// there.
pub proof fn fresh_plan_applies(ws: Workspace, from: Seq<char>, to: Seq<char>, e: EditView)
    requires
        crate::order::in_order(true, ws.files@),
        crate::order::all_keys(true, ws.files@),
        forall|k: int|
            0 <= k < ws.files@.len() ==> lines_of((#[trigger] ws.files@[k]).1@).len() < usize::MAX,
        fresh_plan(ws, from, to).edits.contains(e),
    ensures
        applies_to(e, ws),
{
    if rust_source(from) && between_modules(from, to) {
        let prior = crate_path(from);
        let new = crate_path(to);
        let rewrites = gather(ws.files@.len() as int, file_rewrites(ws.files@, prior, new));
        let dir = src_dir(from);
        let f = segments(from)->0;
        let t = segments(to)->0;
        let out = removal(ws, dir, f.drop_last(), f.last());
        let in_ = insertion(ws, dir, t);
        crate::order::arranged_contains(out.0 + in_.0 + rewrites, e);
        concat_contains(out.0 + in_.0, rewrites, e);
        concat_contains(out.0, in_.0, e);
        if rewrites.contains(e) {
            rewrites_apply(ws, prior, new, e);
        } else if out.0.contains(e) {
            let m = choose|m: int| 0 <= m < out.0.len() && out.0[m] == e;
            let file = ws.declaring(dir, f.drop_last())->0;
            let ls = lines_of(value_of(ws.files@, plain(file))->0@);
            let r = crate::order::row_of(ws.files@, plain(file))->0;
            assert(ws.files@[r].0 == plain(file));
            declaration_bounds(ls, f.last(), 0);
        } else {
            let m = choose|m: int| 0 <= m < in_.0.len() && in_.0[m] == e;
            let file = ws.declaring(dir, t.drop_last())->0;
            let ls = lines_of(value_of(ws.files@, plain(file))->0@);
            let r = crate::order::row_of(ws.files@, plain(file))->0;
            assert(ws.files@[r].0 == plain(file));
            last_bounds(ls, ls.len() as int);
        }
    }
}

// ── showing a plan ─────────────────────────────────────────────────────────────────────

/// The lines that show an edit.
pub open spec fn edit_text(e: EditView) -> Seq<char> {
    match e.kind {
        EditKind::Replace => "  @"@ + dec(e.line as nat) + " · "@ + e.reason + "\n  - "@
            + trimmed_end(e.before) + "\n  + "@ + trimmed_end(e.after) + "\n"@,
        EditKind::Delete => "  @"@ + dec(e.line as nat) + " · "@ + e.reason + "\n  - "@
            + trimmed_end(e.before) + "\n"@,
        EditKind::Insert => (if e.line == 0 {
            "  @top · "@
        } else {
            "  @after "@ + dec(e.line as nat) + " · "@
        }) + e.reason + "\n  + "@ + trimmed_end(e.after) + "\n"@,
    }
}

/// The lines that show the edit at a position, where it is one of the file `path`.
pub open spec fn edit_of(es: Seq<EditView>, path: Seq<char>) -> spec_fn(int) -> Seq<char> {
    |i: int|
        if plain(es[i].path) == plain(path) {
            edit_text(es[i])
        } else {
            seq![]
        }
}

/// The files of edits, each once, in order.
pub open spec fn edited_paths(es: Seq<EditView>) -> Seq<PathView> {
    canonical(es.map_values(|e: EditView| PathView { path: e.path }))
}

/// The file of the edit at a position, where it is not the one that is moved.
pub open spec fn other_path(
    mv: Option<(Seq<char>, Seq<char>)>,
    es: Seq<EditView>,
) -> spec_fn(int) -> Seq<PathView> {
    |i: int|
        match mv {
            Some((from, _)) if plain(es[i].path) == plain(from) => seq![],
            _ => seq![PathView { path: es[i].path }],
        }
}

/// The files of edits but for the one that is moved, each once, in order.
pub open spec fn other_paths(mv: Option<(Seq<char>, Seq<char>)>, es: Seq<EditView>) -> Seq<PathView> {
    canonical(gather(es.len() as int, other_path(mv, es)))
}

/// The lines that show the edits of a file.
pub open spec fn file_text(es: Seq<EditView>) -> spec_fn(int) -> Seq<char> {
    |i: int|
        {
            let path = edited_paths(es)[i].path;
            "\n--- "@ + path + "\n"@ + gather(es.len() as int, edit_of(es, path))
        }
}

/// The line that shows a warning.
pub open spec fn warning_text(ws: Seq<Seq<char>>) -> spec_fn(int) -> Seq<char> {
    |i: int| "  · "@ + ws[i] + "\n"@
}

/// A plan as a diff.
pub open spec fn diff_text(
    mv: Option<(Seq<char>, Seq<char>)>,
    es: Seq<EditView>,
    ws: Seq<Seq<char>>,
) -> Seq<char> {
    (match mv {
        Some((from, to)) => "rename "@ + from + " → "@ + to + "\n"@,
        None => seq![],
    }) + (if es.len() == 0 && ws.len() == 0 {
        "  (no reference rewrites needed)\n"@
    } else {
        seq![]
    }) + gather(edited_paths(es).len() as int, file_text(es)) + (if ws.len() > 0 {
        "\n⚠ warnings (manual review — the resolver will not touch these):\n"@ + gather(
            ws.len() as int,
            warning_text(ws),
        )
    } else {
        seq![]
    })
}

fn write_edit(e: &Edit) -> (r: String)
    ensures
        r@ == edit_text(e@),
{
    match e.kind {
        EditKind::Replace => {
            let mut r = cat7(
                "  @",
                decimal_usize(e.line).as_str(),
                " · ",
                e.reason.as_str(),
                "\n  - ",
                trim_end(e.before.as_str()).as_str(),
                "\n  + ",
            );
            r.append(trim_end(e.after.as_str()).as_str());
            r.append("\n");
            r
        },
        EditKind::Delete => cat7(
            "  @",
            decimal_usize(e.line).as_str(),
            " · ",
            e.reason.as_str(),
            "\n  - ",
            trim_end(e.before.as_str()).as_str(),
            "\n",
        ),
        EditKind::Insert => {
            let head = if e.line == 0 {
                "  @top · ".to_owned()
            } else {
                cat3("  @after ", decimal_usize(e.line).as_str(), " · ")
            };
            cat5(
                head.as_str(),
                e.reason.as_str(),
                "\n  + ",
                trim_end(e.after.as_str()).as_str(),
                "\n",
            )
        },
    }
}

pub(crate) fn list_paths(edits: &Vec<Edit>) -> (r: Vec<PathName>)
    ensures
        r@.map_values(|p: PathName| p@) == edited_paths(edit_views(edits@)),
{
    let ghost es = edit_views(edits@);
    let mut out: Vec<PathName> = Vec::new();
    let mut i: usize = 0;
    while i < edits.len()
        invariant
            i <= edits.len(),
            out.len() == i,
            forall|k: int| 0 <= k < i ==> (#[trigger] out@[k])@.path == edits@[k].path@,
        decreases edits.len() - i,
    {
        out.push(PathName { path: edits[i].path.clone() });
        i += 1;
    }
    proof {
        assert(out@.map_values(|p: PathName| p@) =~= es.map_values(
            |e: EditView| PathView { path: e.path },
        ));
        canonical_mapped(out@, |p: PathName| p@);
    }
    canon(out)
}

fn write_file(edits: &Vec<Edit>, path: &str) -> (r: String)
    ensures
        r@ == "\n--- "@ + path@ + "\n"@ + gather(
            edits@.len() as int,
            edit_of(edit_views(edits@), path@),
        ),
{
    let ghost es = edit_views(edits@);
    let mut r = cat3("\n--- ", path, "\n");
    let ghost base = r@;
    let mut i: usize = 0;
    while i < edits.len()
        invariant
            i <= edits.len(),
            es == edit_views(edits@),
            r@ =~= base + gather(i as int, edit_of(es, path@)),
        decreases edits.len() - i,
    {
        assert(es[i as int] == edits@[i as int]@);
        if same_path(edits[i].path.as_str(), path) {
            r.append(write_edit(&edits[i]).as_str());
        }
        i += 1;
    }
    r
}

impl MovePlan {
    /// What is moved, from where to where.
    pub open spec fn move_view(self) -> Option<(Seq<char>, Seq<char>)> {
        match self.mv {
            Some(m) => Some((m.from@, m.to@)),
            None => None,
        }
    }

    /// Shows the plan: the rename, the edits of each file, and the warnings.
    pub fn render_diff(&self) -> (r: String)
        ensures
            r@ == diff_text(self.move_view(), edit_views(self.edits@), texts(self.warnings@)),
    {
        let ghost es = edit_views(self.edits@);
        let ghost ws = texts(self.warnings@);
        let mut out = match &self.mv {
            Some(m) => cat5("rename ", m.from.as_str(), " → ", m.to.as_str(), "\n"),
            None => String::new(),
        };
        if self.edits.len() == 0 && self.warnings.len() == 0 {
            out.append("  (no reference rewrites needed)\n");
        }
        let paths = list_paths(&self.edits);
        let ghost base = out@;
        assert(base =~= (match self.move_view() {
            Some((from, to)) => "rename "@ + from + " → "@ + to + "\n"@,
            None => seq![],
        }) + (if es.len() == 0 && ws.len() == 0 {
            "  (no reference rewrites needed)\n"@
        } else {
            seq![]
        }));
        let mut i: usize = 0;
        while i < paths.len()
            invariant
                i <= paths.len(),
                es == edit_views(self.edits@),
                paths@.map_values(|p: PathName| p@) == edited_paths(es),
                out@ =~= base + gather(i as int, file_text(es)),
            decreases paths.len() - i,
        {
            assert(edited_paths(es)[i as int] == paths@.map_values(|p: PathName| p@)[i as int]);
            out.append(write_file(&self.edits, paths[i].path.as_str()).as_str());
            i += 1;
        }
        assert(paths@.len() == edited_paths(es).len());
        if self.warnings.len() > 0 {
            let ghost shown = out@;
            let head = "\n⚠ warnings (manual review — the resolver will not touch these):\n";
            let mut tail = head.to_owned();
            let mut i: usize = 0;
            while i < self.warnings.len()
                invariant
                    i <= self.warnings.len(),
                    ws == texts(self.warnings@),
                    tail@ =~= head@ + gather(i as int, warning_text(ws)),
                decreases self.warnings.len() - i,
            {
                assert(ws[i as int] == self.warnings@[i as int]@);
                tail.append(cat3("  · ", self.warnings[i].as_str(), "\n").as_str());
                i += 1;
            }
            out.append(tail.as_str());
        }
        assert(out@ =~= diff_text(self.move_view(), es, ws));
        out
    }

    /// How many files the plan edits besides the one that it moves.
    pub fn touched_files(&self) -> (r: usize)
        ensures
            r == other_paths(self.move_view(), edit_views(self.edits@)).len(),
    {
        let ghost es = edit_views(self.edits@);
        let ghost f = other_path(self.move_view(), es);
        let mut out: Vec<PathName> = Vec::new();
        let mut i: usize = 0;
        while i < self.edits.len()
            invariant
                i <= self.edits.len(),
                es == edit_views(self.edits@),
                f == other_path(self.move_view(), es),
                out@.map_values(|p: PathName| p@) =~= gather(i as int, f),
            decreases self.edits.len() - i,
        {
            let path = &self.edits[i].path;
            assert(es[i as int].path == path@);
            let moved = match &self.mv {
                Some(m) => same_path(path.as_str(), m.from.as_str()),
                None => false,
            };
            if !moved {
                let ghost before = out@;
                let p = PathName { path: path.clone() };
                out.push(p);
                assert(out@.map_values(|p: PathName| p@) =~= before.map_values(
                    |p: PathName| p@,
                ).push(p@));
            }
            i += 1;
        }
        proof {
            canonical_mapped(out@, |p: PathName| p@);
        }
        let paths = canon(out);
        assert(paths@.map_values(|p: PathName| p@).len() == paths@.len());
        paths.len()
    }
}

} // verus!
