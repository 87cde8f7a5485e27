//! Functions copied from one file into another: bodies that are the same once comments and
//! layout are taken away. Rust functions are found by their braces, Python functions by their
//! indentation.
use vstd::prelude::*;

use crate::forgotten::{find_tests, tests_from};
use crate::moves::Workspace;
use crate::order::{
    arrange, arranged, arranged_mapped, canon, canonical, falling_key, falling_rank, name_key,
    name_rank, Keyed, Ranked,
};
use crate::scan::{fnv, fnv1a};
use crate::text::{
    ascii_alphanumeric, behind, chars, contains, count, count_from, ends, ends_with, find, gather,
    is_ascii_alphanumeric, join, joined, lead, leading, lines, lines_of, occurs, position, put,
    run_end, slice, span_from, split_whitespace, starts, starts_with, strip_prefix, text_opt, texts,
    trim_start, trimmed_start, words, Class,
};

verus! {

/// Where a function stands.
#[derive(Debug, Clone, PartialEq, Eq)]
pub struct CloneGroup {
    /// The file, the name and the line of each function of the group.
    pub sites: Vec<(String, String, u32)>,
    /// How many lines the body has.
    pub lines: usize,
}

/// Where a function stands.
#[verifier::ext_equal]
pub struct SiteView {
    pub file: Seq<char>,
    pub name: Seq<char>,
    pub line: u32,
}

impl Ranked for SiteView {
    open spec fn rank(&self) -> Seq<i64> {
        site_rank(self.file, self.name, self.line)
    }
}

/// The rank of a site: by file, then by name, then by line.
pub open spec fn site_rank(file: Seq<char>, name: Seq<char>, line: u32) -> Seq<i64> {
    name_rank(false, file).push((-1) as i64) + name_rank(false, name).push((-1) as i64) + seq![
        line as i64,
    ]
}

struct Site {
    file: String,
    name: String,
    line: u32,
}

impl View for Site {
    type V = SiteView;

    closed spec fn view(&self) -> SiteView {
        SiteView { file: self.file@, name: self.name@, line: self.line }
    }
}

impl Ranked for Site {
    closed spec fn rank(&self) -> Seq<i64> {
        site_rank(self.file@, self.name@, self.line)
    }
}

impl Keyed for Site {
    fn key(&self) -> (r: Vec<i64>) {
        let mut k = name_key(false, self.file.as_str());
        k.push(-1);
        let mut n = name_key(false, self.name.as_str());
        n.push(-1);
        k.append(&mut n);
        k.push(self.line as i64);
        assert(k@ =~= site_rank(self.file@, self.name@, self.line));
        k
    }
}

/// A group of functions with the same body.
#[verifier::ext_equal]
pub struct GroupView {
    pub sites: Seq<SiteView>,
    pub lines: usize,
}

impl Ranked for GroupView {
    open spec fn rank(&self) -> Seq<i64> {
        falling_rank(self.sites.len() as int) + falling_rank(self.lines as int)
    }
}

/// The views of a list of sites.
pub open spec fn site_views(v: Seq<(String, String, u32)>) -> Seq<SiteView> {
    v.map_values(|s: (String, String, u32)| SiteView { file: s.0@, name: s.1@, line: s.2 })
}

impl View for CloneGroup {
    type V = GroupView;

    open spec fn view(&self) -> GroupView {
        GroupView { sites: site_views(self.sites@), lines: self.lines }
    }
}

impl Ranked for CloneGroup {
    open spec fn rank(&self) -> Seq<i64> {
        falling_rank(self.sites@.len() as int) + falling_rank(self.lines as int)
    }
}

impl Keyed for CloneGroup {
    fn key(&self) -> (r: Vec<i64>) {
        let mut k = falling_key(self.sites.len());
        let mut n = falling_key(self.lines);
        k.append(&mut n);
        k
    }
}

/// A function found in a file: where it stands, the hash of its body, and how many lines that
/// has.
#[verifier::ext_equal]
pub struct FuncView {
    pub file: Seq<char>,
    pub name: Seq<char>,
    pub line: u32,
    pub hash: u64,
    pub lines: usize,
}

struct Func {
    file: String,
    name: String,
    line: u32,
    hash: u64,
    lines: usize,
}

impl View for Func {
    type V = FuncView;

    closed spec fn view(&self) -> FuncView {
        FuncView {
            file: self.file@,
            name: self.name@,
            line: self.line,
            hash: self.hash,
            lines: self.lines,
        }
    }
}

spec fn func_views(v: Seq<Func>) -> Seq<FuncView> {
    v.map_values(|f: Func| f@)
}

// ── reading lines ──────────────────────────────────────────────────────────────────────

/// What a line holds from position `i` on outside of comments and literals; `quote` is the
/// delimiter of the literal that is open.
pub open spec fn code_from(s: Seq<char>, i: int, quote: Option<char>, escaped: bool) -> Seq<char>
    decreases s.len() - i,
{
    if i >= s.len() {
        Seq::empty()
    } else {
        match quote {
            Some(d) => if escaped {
                code_from(s, i + 1, quote, false)
            } else if s[i] == '\\' {
                code_from(s, i + 1, quote, true)
            } else if s[i] == d {
                code_from(s, i + 1, None, false)
            } else {
                code_from(s, i + 1, quote, false)
            },
            None => if s[i] == '/' && i + 1 < s.len() && s[i + 1] == '/' {
                Seq::empty()
            } else if s[i] == '"' || s[i] == '\'' {
                code_from(s, i + 1, Some(s[i]), escaped)
            } else {
                seq![s[i]] + code_from(s, i + 1, None, escaped)
            },
        }
    }
}

/// What a line holds outside of comments and literals.
pub open spec fn code_of(line: Seq<char>) -> Seq<char> {
    code_from(line, 0, None, false)
}

/// How much deeper the first `n` characters lead.
pub open spec fn depth_upto(s: Seq<char>, n: int) -> int
    decreases n,
{
    if n <= 0 {
        0
    } else {
        depth_upto(s, n - 1) + (if s[n - 1] == '{' {
            1int
        } else if s[n - 1] == '}' {
            -1int
        } else {
            0int
        })
    }
}

/// How much deeper a line leads.
pub open spec fn deepens(line: Seq<char>) -> int {
    depth_upto(code_of(line), code_of(line).len() as int)
}

/// Whether a line opens a brace.
pub open spec fn opens(line: Seq<char>) -> bool {
    code_of(line).contains('{')
}

/// The lines of the opening and of the closing brace of the body that is looked for from line
/// `start` on: nothing where no brace opens within some lines, or where it does not close.
pub open spec fn body_from(
    ls: Seq<Seq<char>>,
    start: int,
    j: int,
    depth: int,
    open: Option<int>,
) -> Option<(int, int)>
    decreases ls.len() - j,
{
    if j >= ls.len() {
        None
    } else {
        let d = depth + deepens(ls[j]);
        let o = if open is None && opens(ls[j]) {
            Some(j)
        } else {
            open
        };
        match o {
            Some(k) => if d <= 0 {
                Some((k, j))
            } else {
                body_from(ls, start, j + 1, d, o)
            },
            None => if j > start + 40 {
                None
            } else {
                body_from(ls, start, j + 1, d, o)
            },
        }
    }
}

/// The code of a line: up to a comment that stands outside of double quotes, its words with
/// single spaces between them.
pub open spec fn plain_line(line: Seq<char>, comment: Seq<char>) -> Seq<char> {
    let code = match find(line, comment) {
        Some(p) => if count_from(line.take(p), "\""@, 0) % 2 == 0 {
            line.take(p)
        } else {
            line
        },
        None => line,
    };
    joined(words(code), " "@)
}

/// The code of the line at a position, where it has any.
pub open spec fn plain_at(ls: Seq<Seq<char>>, comment: Seq<char>, from: int) -> spec_fn(int) -> Seq<
    Seq<char>,
> {
    |i: int|
        if plain_line(ls[from + i], comment).len() > 0 {
            seq![plain_line(ls[from + i], comment)]
        } else {
            seq![]
        }
}

/// The code of the lines from `from` up to `to`.
pub open spec fn plain_lines(ls: Seq<Seq<char>>, comment: Seq<char>, from: int, to: int) -> Seq<
    Seq<char>,
> {
    gather(to - from, plain_at(ls, comment, from))
}

/// The name of the Rust function that a line declares.
pub open spec fn rust_name(line: Seq<char>) -> Option<Seq<char>> {
    let t = trimmed_start(line);
    match find(t, "fn "@) {
        Some(i) => {
            let after = t.skip(i + 3);
            let name = lead(after, Class::Ident);
            if (i > 0 && ascii_alphanumeric(t[i - 1])) || name.len() == 0 || !occurs(after, "("@) {
                None
            } else {
                Some(name)
            }
        },
        None => None,
    }
}

/// What comes behind the words that declare a Python function.
pub open spec fn behind_def(line: Seq<char>) -> Option<Seq<char>> {
    let t = trimmed_start(line);
    match behind(t, "def "@) {
        Some(rest) => Some(rest),
        None => behind(t, "async def "@),
    }
}

/// The name of the Python function that a line declares.
pub open spec fn python_name(line: Seq<char>) -> Option<Seq<char>> {
    match behind_def(line) {
        Some(rest) => {
            let name = lead(rest, Class::Ident);
            if name.len() == 0 || !occurs(rest, "("@) {
                None
            } else {
                Some(name)
            }
        },
        None => None,
    }
}

/// How far a line is indented.
pub open spec fn indent(line: Seq<char>) -> int {
    span_from(line, Class::White, 0)
}

/// The first line from `j` on that is not blank and no further indented than `depth`, or the
/// end.
pub open spec fn block_end(ls: Seq<Seq<char>>, depth: int, j: int) -> int
    decreases ls.len() - j,
{
    if j >= ls.len() || (indent(ls[j]) < ls[j].len() && indent(ls[j]) <= depth) {
        j
    } else {
        block_end(ls, depth, j + 1)
    }
}

/// How many brackets are open behind a line of Python, from position `i` on: those in strings and
/// comments do not count. A string ends with its line at the latest.
pub open spec fn brackets_from(line: Seq<char>, i: int, depth: usize, quote: Option<char>) -> usize
    decreases line.len() - i,
{
    if i >= line.len() {
        depth
    } else {
        let c = line[i];
        match quote {
            Some(q) => if c == '\\' {
                if i + 1 < line.len() {
                    brackets_from(line, i + 2, depth, quote)
                } else {
                    depth
                }
            } else if c == q {
                brackets_from(line, i + 1, depth, None)
            } else {
                brackets_from(line, i + 1, depth, quote)
            },
            None => if c == '#' {
                depth
            } else if c == '"' || c == '\'' {
                brackets_from(line, i + 1, depth, Some(c))
            } else if c == '(' || c == '[' || c == '{' {
                brackets_from(
                    line,
                    i + 1,
                    if depth < usize::MAX {
                        (depth + 1) as usize
                    } else {
                        depth
                    },
                    None,
                )
            } else if c == ')' || c == ']' || c == '}' {
                brackets_from(
                    line,
                    i + 1,
                    if depth > 0 {
                        (depth - 1) as usize
                    } else {
                        depth
                    },
                    None,
                )
            } else {
                brackets_from(line, i + 1, depth, None)
            },
        }
    }
}

/// The line behind a signature that goes on at line `j` with brackets open: the one behind the
/// line that closes them all.
pub open spec fn signature_end(ls: Seq<Seq<char>>, j: int, depth: usize) -> Option<int>
    decreases ls.len() - j,
{
    if j >= ls.len() {
        None
    } else {
        let open = brackets_from(ls[j], 0, depth, None);
        if open == 0 {
            Some(j + 1)
        } else {
            signature_end(ls, j + 1, open)
        }
    }
}

/// The first line behind the signature of the Python function that line `i` declares. A signature
/// whose brackets are never closed counts as one line.
pub open spec fn python_body(ls: Seq<Seq<char>>, i: int) -> int {
    match signature_end(ls, i, 0) {
        Some(j) => j,
        None => i + 1,
    }
}

/// A function with a body, where that is long enough.
pub open spec fn long_enough(
    file: Seq<char>,
    name: Seq<char>,
    start: int,
    body: Seq<Seq<char>>,
    least: int,
) -> Seq<FuncView> {
    if body.len() >= least {
        seq![
            (FuncView {
                file,
                name,
                line: (start + 1) as u32,
                hash: fnv(vstd::utf8::encode_utf8(joined(body, "\n"@))),
                lines: body.len() as usize,
            }),
        ]
    } else {
        seq![]
    }
}

/// The Rust functions that begin on a line from `i` on and before `end`.
pub open spec fn rust_functions(
    file: Seq<char>,
    ls: Seq<Seq<char>>,
    least: int,
    end: int,
    i: int,
) -> Seq<FuncView>
    decreases ls.len() - i,
{
    if i >= end || i >= ls.len() {
        Seq::empty()
    } else {
        match rust_name(ls[i]) {
            None => rust_functions(file, ls, least, end, i + 1),
            Some(name) => match body_from(ls, i, i, 0, None) {
                Some((open, close)) => if i <= close < ls.len() {
                    long_enough(
                        file,
                        name,
                        i,
                        plain_lines(ls, "//"@, open + 1, close),
                        least,
                    ) + rust_functions(file, ls, least, end, close + 1)
                } else {
                    Seq::empty()
                },
                None => rust_functions(file, ls, least, end, i + 1),
            },
        }
    }
}

/// The Python functions that begin on a line from `i` on and before `end`; tests are left out, and
/// the lines of a signature are no part of the body.
pub open spec fn python_functions(
    file: Seq<char>,
    ls: Seq<Seq<char>>,
    least: int,
    end: int,
    i: int,
) -> Seq<FuncView>
    decreases ls.len() - i,
{
    if i >= end || i >= ls.len() {
        Seq::empty()
    } else {
        match python_name(ls[i]) {
            None => python_functions(file, ls, least, end, i + 1),
            Some(name) => {
                let body = python_body(ls, i);
                let next = block_end(ls, indent(ls[i]), body);
                if !(i < next <= ls.len()) {
                    Seq::empty()
                } else if starts(name, "test_"@) {
                    python_functions(file, ls, least, end, next)
                } else {
                    long_enough(file, name, i, plain_lines(ls, "#"@, body, next), least)
                        + python_functions(file, ls, least, end, next)
                }
            },
        }
    }
}

/// The functions of a file.
pub open spec fn functions_in(file: Seq<char>, text: Seq<char>, least: int) -> Seq<FuncView> {
    let ls = lines_of(text);
    if ends(file, ".py"@) {
        python_functions(file, ls, least, tests_from(ls, 0), 0)
    } else {
        rust_functions(file, ls, least, tests_from(ls, 0), 0)
    }
}

/// The functions of each file.
pub open spec fn functions_at(ws: Workspace, least: int) -> spec_fn(int) -> Seq<FuncView> {
    |i: int| functions_in(ws.files@[i].0, ws.files@[i].1@, least)
}

/// All the functions of a workspace.
pub open spec fn all_functions(ws: Workspace, least: int) -> Seq<FuncView> {
    gather(ws.files@.len() as int, functions_at(ws, least))
}

/// The function at a position, where its body has this hash.
pub open spec fn hashed(fs: Seq<FuncView>, h: u64) -> spec_fn(int) -> Seq<FuncView> {
    |i: int|
        if fs[i].hash == h {
            seq![fs[i]]
        } else {
            seq![]
        }
}

/// The functions whose bodies have this hash.
pub open spec fn with_hash(fs: Seq<FuncView>, h: u64) -> Seq<FuncView> {
    gather(fs.len() as int, hashed(fs, h))
}

/// The hashes of bodies, each once, in order.
pub open spec fn hashes(fs: Seq<FuncView>) -> Seq<u64> {
    canonical(fs.map_values(|f: FuncView| f.hash))
}

/// The group of the functions whose bodies have the hash at a position, where there are several.
pub open spec fn group_at(fs: Seq<FuncView>) -> spec_fn(int) -> Seq<GroupView> {
    |i: int|
        {
            let g = with_hash(fs, hashes(fs)[i]);
            if g.len() > 1 {
                seq![
                    (GroupView {
                        sites: arranged(
                            g.map_values(
                                |f: FuncView|
                                    SiteView { file: f.file, name: f.name, line: f.line },
                            ),
                        ),
                        lines: g[0].lines,
                    }),
                ]
            } else {
                seq![]
            }
        }
}

/// The groups of functions with the same body: those with more members first, then those with
/// longer bodies.
pub open spec fn clone_groups(fs: Seq<FuncView>) -> Seq<GroupView> {
    arranged(gather(hashes(fs).len() as int, group_at(fs)))
}

/// A group of copied functions has at least two of them.
pub proof fn clone_groups_have_copies(fs: Seq<FuncView>, g: GroupView)
    requires
        clone_groups(fs).contains(g),
    ensures
        g.sites.len() > 1,
{
    let all = gather(hashes(fs).len() as int, group_at(fs));
    crate::order::arranged_contains(all, g);
    crate::text::gather_contains(hashes(fs).len() as int, group_at(fs), g);
    let i = choose|i: int| 0 <= i < hashes(fs).len() && (#[trigger] (group_at(fs))(i)).contains(g);
    let one = (group_at(fs))(i);
    let k = choose|k: int| 0 <= k < one.len() && one[k] == g;
    let w = with_hash(fs, hashes(fs)[i]);
    let sites = w.map_values(
        |f: FuncView| SiteView { file: f.file, name: f.name, line: f.line },
    );
    crate::order::arranged_facts(sites);
    sites.to_multiset_ensures();
    arranged(sites).to_multiset_ensures();
}

/// No copied function is missed: two functions whose bodies have the same hash stand in one group.
pub proof fn clones_are_found(fs: Seq<FuncView>, i: int, j: int)
    requires
        0 <= i < fs.len(),
        0 <= j < fs.len(),
        fs[i] != fs[j],
        fs[i].hash == fs[j].hash,
    ensures
        exists|g: GroupView| #[trigger]
            clone_groups(fs).contains(g) && g.sites.contains(
                SiteView { file: fs[i].file, name: fs[i].name, line: fs[i].line },
            ) && g.sites.contains(
                SiteView { file: fs[j].file, name: fs[j].name, line: fs[j].line },
            ),
{
    let h = fs[i].hash;
    let hs = fs.map_values(|f: FuncView| f.hash);
    assert(hs[i] == h);
    assert(hs.contains(h));
    crate::order::canonical_facts(hs);
    let c = canonical(hs);
    let q = choose|q: int| 0 <= q < c.len() && #[trigger] c[q].rank() == h.rank();
    crate::order::number_rank_orders(c[q] as int, h as int);
    crate::order::number_rank_orders(h as int, c[q] as int);
    crate::order::before_irreflexive(h.rank());
    assert(hashes(fs)[q] == h);
    let w = with_hash(fs, h);
    assert((hashed(fs, h))(i)[0] == fs[i]);
    assert((hashed(fs, h))(i).contains(fs[i]));
    assert((hashed(fs, h))(j)[0] == fs[j]);
    assert((hashed(fs, h))(j).contains(fs[j]));
    crate::text::gather_contains(fs.len() as int, hashed(fs, h), fs[i]);
    crate::text::gather_contains(fs.len() as int, hashed(fs, h), fs[j]);
    let x = choose|x: int| 0 <= x < w.len() && w[x] == fs[i];
    let y = choose|y: int| 0 <= y < w.len() && w[y] == fs[j];
    assert(x != y);
    let sites = w.map_values(
        |f: FuncView| SiteView { file: f.file, name: f.name, line: f.line },
    );
    let a = SiteView { file: fs[i].file, name: fs[i].name, line: fs[i].line };
    let b = SiteView { file: fs[j].file, name: fs[j].name, line: fs[j].line };
    assert(sites[x] == a && sites[y] == b);
    crate::order::arranged_contains(sites, a);
    crate::order::arranged_contains(sites, b);
    let g = GroupView { sites: arranged(sites), lines: w[0].lines };
    assert((group_at(fs))(q)[0] == g);
    assert((group_at(fs))(q).contains(g));
    crate::text::gather_contains(hashes(fs).len() as int, group_at(fs), g);
    crate::order::arranged_contains(gather(hashes(fs).len() as int, group_at(fs)), g);
    assert(clone_groups(fs).contains(g));
}

// ── finding functions ──────────────────────────────────────────────────────────────────

fn strip_strings_and_comments(line: &str) -> (r: Vec<char>)
    ensures
        r@ == code_of(line@),
        r@.len() <= line@.len(),
{
    let s = chars(line);
    let mut out: Vec<char> = Vec::new();
    let mut quote: Option<char> = None;
    let mut escaped = false;
    let mut i: usize = 0;
    while i < s.len()
        invariant_except_break
            i <= s.len(),
            s@ == line@,
            out.len() <= i,
            code_of(line@) =~= out@ + code_from(line@, i as int, quote, escaped),
        ensures
            s@ == line@,
            out.len() <= s.len(),
            code_of(line@) == out@,
        decreases s.len() - i,
    {
        let c = s[i];
        match quote {
            Some(d) => {
                if escaped {
                    escaped = false;
                } else if c == '\\' {
                    escaped = true;
                } else if c == d {
                    quote = None;
                }
            },
            None => {
                if c == '/' && i + 1 < s.len() && s[i + 1] == '/' {
                    break;
                }
                if c == '"' || c == '\'' {
                    quote = Some(c);
                } else {
                    out.push(c);
                }
            },
        }
        i += 1;
    }
    out
}

/// How long the first `n` lines are together.
spec fn total_len(ls: Seq<Seq<char>>, n: int) -> int
    decreases n,
{
    if n <= 0 {
        0
    } else {
        total_len(ls, n - 1) + ls[n - 1].len()
    }
}

proof fn total_len_grows(ls: Seq<Seq<char>>, a: int, b: int)
    requires
        a <= b,
    ensures
        total_len(ls, a) <= total_len(ls, b),
    decreases b - a,
{
    if a < b {
        total_len_grows(ls, a, b - 1);
    }
}

proof fn lines_fit(text: Seq<char>)
    ensures
        total_len(lines_of(text), lines_of(text).len() as int) <= text.len(),
{
    crate::moves::lines_make_text(text);
    let ps = crate::text::pieces(text);
    lines_fit_upto(ps, ps.len() as int);
}

proof fn lines_fit_upto(ps: Seq<crate::text::Piece>, n: int)
    requires
        0 <= n <= ps.len(),
    ensures
        total_len(ps.map_values(|p: crate::text::Piece| p.text), n) <= gather(
            n,
            crate::moves::whole_line(ps),
        ).len(),
    decreases n,
{
    if n > 0 {
        lines_fit_upto(ps, n - 1);
    }
}

/// How much deeper a line leads, and whether it opens a brace.
fn measure(line: &str) -> (r: (i128, bool))
    ensures
        r.0 == deepens(line@),
        r.1 == opens(line@),
        -(line@.len() as int) <= r.0 <= line@.len(),
{
    let code = strip_strings_and_comments(line);
    let mut depth: i128 = 0;
    let mut open = false;
    let mut i: usize = 0;
    while i < code.len()
        invariant
            i <= code.len(),
            code@ == code_of(line@),
            depth == depth_upto(code@, i as int),
            -(i as int) <= depth <= i,
            open <==> exists|k: int| 0 <= k < i && code@[k] == '{',
        decreases code.len() - i,
    {
        let ghost was = open;
        if code[i] == '{' {
            depth = depth + 1;
            open = true;
            assert(code@[i as int] == '{');
        } else if code[i] == '}' {
            depth = depth - 1;
        }
        assert(open <==> exists|k: int| 0 <= k < i + 1 && code@[k] == '{') by {
            if was {
                let k = choose|k: int| 0 <= k < i && code@[k] == '{';
                assert(code@[k] == '{');
            }
        }
        i += 1;
    }
    (depth, open)
}

/// The lines of the braces of the body that is looked for from line `start` on.
fn find_body(ls: &Vec<String>, start: usize) -> (r: Option<(usize, usize)>)
    requires
        start < ls.len(),
        total_len(texts(ls@), ls@.len() as int) <= usize::MAX,
    ensures
        match r {
            Some((a, b)) => body_from(texts(ls@), start as int, start as int, 0, None) == Some(
                (a as int, b as int),
            ) && a <= b < ls.len() && start <= a,
            None => body_from(texts(ls@), start as int, start as int, 0, None) is None,
        },
{
    let ghost all = texts(ls@);
    let mut depth: i128 = 0;
    let mut open: Option<usize> = None;
    let mut j: usize = start;
    proof {
        total_len_grows(all, 0, start as int);
    }
    while j < ls.len()
        invariant
            start <= j <= ls.len(),
            all == texts(ls@),
            total_len(all, ls@.len() as int) <= usize::MAX,
            0 <= total_len(all, start as int),
            -(total_len(all, j as int)) <= depth <= total_len(all, j as int),
            open is Some ==> start <= open->0 < j,
            body_from(all, start as int, start as int, 0, None) == body_from(
                all,
                start as int,
                j as int,
                depth as int,
                crate::text::place(open),
            ),
        decreases ls.len() - j,
    {
        proof {
            total_len_grows(all, j + 1, ls@.len() as int);
            assert(all[j as int] == ls@[j as int]@);
        }
        let (d, o) = measure(ls[j].as_str());
        depth = depth + d;
        if open.is_none() && o {
            open = Some(j);
        }
        match open {
            Some(k) => {
                if depth <= 0 {
                    return Some((k, j));
                }
            },
            None => {
                if j - start > 40 {
                    return None;
                }
            },
        }
        j += 1;
    }
    None
}

fn write_plain(line: &str, comment: &str) -> (r: String)
    ensures
        r@ == plain_line(line@, comment@),
{
    let a = chars(line);
    let ghost whole = line@;
    let code = match position(line, comment) {
        Some(p) => {
            let head = slice(&a, 0, p);
            proof {
                reveal_strlit("\"");
                assert(a@.subrange(0, p as int) =~= whole.take(p as int));
            }
            if count(head.as_str(), "\"") % 2 == 0 {
                head
            } else {
                line.to_owned()
            }
        },
        None => line.to_owned(),
    };
    join(&split_whitespace(code.as_str()), " ")
}

fn list_plain(ls: &Vec<String>, comment: &str, from: usize, to: usize) -> (r: Vec<String>)
    requires
        to <= ls.len(),
    ensures
        texts(r@) == plain_lines(texts(ls@), comment@, from as int, to as int),
{
    let ghost all = texts(ls@);
    let mut r: Vec<String> = Vec::new();
    let mut i: usize = from;
    assert(texts(r@) =~= gather(0, plain_at(all, comment@, from as int)));
    while i < to
        invariant
            to <= ls.len(),
            from <= i,
            i <= to || i == from,
            all == texts(ls@),
            texts(r@) == gather(i - from, plain_at(all, comment@, from as int)),
        decreases to - i,
    {
        assert(all[i as int] == ls@[i as int]@);
        let p = write_plain(ls[i].as_str(), comment);
        let ghost before = texts(r@);
        if chars(p.as_str()).len() > 0 {
            put(&mut r, p);
        }
        assert(texts(r@) =~= before + (plain_at(all, comment@, from as int))(i - from));
        i += 1;
    }
    r
}

fn fn_name(line: &str) -> (r: Option<String>)
    ensures
        text_opt(r) == rust_name(line@),
{
    let t = trim_start(line);
    let a = chars(t.as_str());
    proof {
        reveal_strlit("fn ");
        assert("fn "@.len() == 3);
    }
    match position(t.as_str(), "fn ") {
        Some(i) => {
            assert(i + "fn "@.len() <= a@.len());
            let after = slice(&a, i + 3, a.len());
            assert(a@.subrange(i + 3, a@.len() as int) =~= t@.skip(i + 3));
            let name = leading(after.as_str(), Class::Ident);
            if (i > 0 && is_ascii_alphanumeric(a[i - 1])) || chars(name.as_str()).len() == 0
                || !contains(after.as_str(), "(") {
                None
            } else {
                Some(name)
            }
        },
        None => None,
    }
}

fn def_name(line: &str) -> (r: Option<String>)
    ensures
        text_opt(r) == python_name(line@),
{
    let t = trim_start(line);
    let rest = match strip_prefix(t.as_str(), "def ") {
        Some(rest) => Some(rest),
        None => strip_prefix(t.as_str(), "async def "),
    };
    match rest {
        Some(rest) => {
            let name = leading(rest.as_str(), Class::Ident);
            if chars(name.as_str()).len() == 0 || !contains(rest.as_str(), "(") {
                None
            } else {
                Some(name)
            }
        },
        None => None,
    }
}

fn add_function(
    file: &str,
    name: String,
    start: usize,
    body: &Vec<String>,
    least: usize,
    out: &mut Vec<Func>,
)
    requires
        start < usize::MAX,
    ensures
        func_views(final(out)@) == func_views(old(out)@) + long_enough(
            file@,
            name@,
            start as int,
            texts(body@),
            least as int,
        ),
{
    let ghost before = func_views(out@);
    if body.len() >= least {
        let n: usize = start + 1;
        let text = join(body, "\n");
        let f = Func {
            file: file.to_owned(),
            name,
            line: #[verifier::truncate] (n as u32),
            hash: fnv1a(text.as_str().as_bytes()),
            lines: body.len(),
        };
        assert(func_views(out@.push(f)) =~= before.push(f@));
        out.push(f);
    }
    assert(func_views(out@) =~= before + long_enough(
        file@,
        name@,
        start as int,
        texts(body@),
        least as int,
    ));
}

fn extract_functions(file: &str, ls: &Vec<String>, least: usize, out: &mut Vec<Func>)
    requires
        total_len(texts(ls@), ls@.len() as int) <= usize::MAX,
    ensures
        func_views(final(out)@) == func_views(old(out)@) + rust_functions(
            file@,
            texts(ls@),
            least as int,
            tests_from(texts(ls@), 0),
            0,
        ),
{
    let ghost all = texts(ls@);
    let ghost base = func_views(out@);
    let end = find_tests(ls);
    let ghost goal = rust_functions(file@, all, least as int, end as int, 0);
    let mut i: usize = 0;
    while i < end
        invariant
            end <= ls.len(),
            i <= ls.len(),
            all == texts(ls@),
            total_len(all, ls@.len() as int) <= usize::MAX,
            goal == rust_functions(file@, all, least as int, end as int, 0),
            base + goal =~= func_views(out@) + rust_functions(
                file@,
                all,
                least as int,
                end as int,
                i as int,
            ),
        decreases ls.len() - i,
    {
        assert(all[i as int] == ls@[i as int]@);
        let name = match fn_name(ls[i].as_str()) {
            Some(name) => name,
            None => {
                i += 1;
                continue;
            },
        };
        match find_body(ls, i) {
            Some((open, close)) => {
                let body = list_plain(ls, "//", open + 1, close);
                add_function(file, name, i, &body, least, out);
                i = close + 1;
            },
            None => {
                i += 1;
            },
        }
    }
}

fn find_block_end(ls: &Vec<String>, depth: usize, from: usize) -> (r: usize)
    requires
        from <= ls.len(),
    ensures
        r == block_end(texts(ls@), depth as int, from as int),
        from <= r <= ls.len(),
{
    let ghost all = texts(ls@);
    let mut j: usize = from;
    while j < ls.len()
        invariant
            from <= j <= ls.len(),
            all == texts(ls@),
            block_end(all, depth as int, from as int) == block_end(all, depth as int, j as int),
        decreases ls.len() - j,
    {
        assert(all[j as int] == ls@[j as int]@);
        let a = chars(ls[j].as_str());
        let n = run_end(&a, Class::White, 0);
        if n < a.len() && n <= depth {
            return j;
        }
        j += 1;
    }
    j
}

fn count_brackets(line: &str, depth: usize) -> (r: usize)
    ensures
        r == brackets_from(line@, 0, depth, None),
{
    let s = chars(line);
    let mut open: usize = depth;
    let mut quote: Option<char> = None;
    let mut i: usize = 0;
    while i < s.len()
        invariant
            i <= s.len(),
            s@ == line@,
            brackets_from(line@, 0, depth, None) == brackets_from(line@, i as int, open, quote),
        decreases s.len() - i,
    {
        let c = s[i];
        match quote {
            Some(q) => {
                if c == '\\' {
                    if i + 1 < s.len() {
                        i += 1;
                    } else {
                        return open;
                    }
                } else if c == q {
                    quote = None;
                }
            },
            None => {
                if c == '#' {
                    return open;
                } else if c == '"' || c == '\'' {
                    quote = Some(c);
                } else if c == '(' || c == '[' || c == '{' {
                    if open < usize::MAX {
                        open += 1;
                    }
                } else if c == ')' || c == ']' || c == '}' {
                    if open > 0 {
                        open -= 1;
                    }
                }
            },
        }
        i += 1;
    }
    open
}

fn find_python_body(ls: &Vec<String>, from: usize) -> (r: usize)
    requires
        from < ls.len(),
    ensures
        r == python_body(texts(ls@), from as int),
        from < r <= ls.len(),
{
    let ghost all = texts(ls@);
    let mut open: usize = 0;
    let mut j: usize = from;
    while j < ls.len()
        invariant
            from <= j <= ls.len(),
            all == texts(ls@),
            signature_end(all, from as int, 0) == signature_end(all, j as int, open),
        decreases ls.len() - j,
    {
        assert(all[j as int] == ls@[j as int]@);
        open = count_brackets(ls[j].as_str(), open);
        if open == 0 {
            return j + 1;
        }
        j += 1;
    }
    from + 1
}

fn extract_python(file: &str, ls: &Vec<String>, least: usize, out: &mut Vec<Func>)
    ensures
        func_views(final(out)@) == func_views(old(out)@) + python_functions(
            file@,
            texts(ls@),
            least as int,
            tests_from(texts(ls@), 0),
            0,
        ),
{
    let ghost all = texts(ls@);
    let ghost base = func_views(out@);
    let end = find_tests(ls);
    let ghost goal = python_functions(file@, all, least as int, end as int, 0);
    let mut i: usize = 0;
    while i < end
        invariant
            end <= ls.len(),
            i <= ls.len(),
            all == texts(ls@),
            goal == python_functions(file@, all, least as int, end as int, 0),
            base + goal =~= func_views(out@) + python_functions(
                file@,
                all,
                least as int,
                end as int,
                i as int,
            ),
        decreases ls.len() - i,
    {
        assert(all[i as int] == ls@[i as int]@);
        let name = match def_name(ls[i].as_str()) {
            Some(name) => name,
            None => {
                i += 1;
                continue;
            },
        };
        let depth = run_end(&chars(ls[i].as_str()), Class::White, 0);
        let from = find_python_body(ls, i);
        let next = find_block_end(ls, depth, from);
        if !starts_with(name.as_str(), "test_") {
            let body = list_plain(ls, "#", from, next);
            add_function(file, name, i, &body, least, out);
        }
        i = next;
    }
}

fn list_functions(ws: &Workspace, least: usize) -> (r: Vec<Func>)
    ensures
        func_views(r@) == all_functions(*ws, least as int),
{
    let mut out: Vec<Func> = Vec::new();
    let total = ws.files.len();
    let mut i: usize = 0;
    while i < total
        invariant
            i <= total == ws.files@.len(),
            func_views(out@) =~= gather(i as int, functions_at(*ws, least as int)),
        decreases total - i,
    {
        let file = ws.files.name(i).as_str();
        let text = ws.files.value(i).as_str();
        let a = chars(text);
        let ls = lines(text);
        proof {
            lines_fit(text@);
            assert(texts(ls@).len() == ls@.len());
        }
        if ends_with(file, ".py") {
            extract_python(file, &ls, least, &mut out);
        } else {
            extract_functions(file, &ls, least, &mut out);
        }
        i += 1;
    }
    out
}

// ── grouping ───────────────────────────────────────────────────────────────────────────

fn list_hashes(fs: &Vec<Func>) -> (r: Vec<u64>)
    ensures
        r@ == hashes(func_views(fs@)),
{
    let mut out: Vec<u64> = Vec::new();
    let mut i: usize = 0;
    while i < fs.len()
        invariant
            i <= fs.len(),
            out.len() == i,
            forall|k: int| 0 <= k < i ==> #[trigger] out@[k] == fs@[k].hash,
        decreases fs.len() - i,
    {
        out.push(fs[i].hash);
        i += 1;
    }
    assert(out@ =~= func_views(fs@).map_values(|f: FuncView| f.hash));
    canon(out)
}

fn make_group(fs: &Vec<Func>, h: u64) -> (r: (Vec<Site>, usize))
    ensures
        r.0@.map_values(|s: Site| s@) == with_hash(func_views(fs@), h).map_values(
            |f: FuncView| SiteView { file: f.file, name: f.name, line: f.line },
        ),
        r.0@.len() == with_hash(func_views(fs@), h).len(),
        with_hash(func_views(fs@), h).len() > 0 ==> r.1 == with_hash(func_views(fs@), h)[0].lines,
{
    let ghost all = func_views(fs@);
    let mut sites: Vec<Site> = Vec::new();
    let mut size: usize = 0;
    let mut i: usize = 0;
    while i < fs.len()
        invariant
            i <= fs.len(),
            all == func_views(fs@),
            sites.len() == gather(i as int, hashed(all, h)).len(),
            forall|k: int|
                0 <= k < sites.len() ==> (#[trigger] sites@[k])@ == (SiteView {
                    file: gather(i as int, hashed(all, h))[k].file,
                    name: gather(i as int, hashed(all, h))[k].name,
                    line: gather(i as int, hashed(all, h))[k].line,
                }),
            sites.len() > 0 ==> size == gather(i as int, hashed(all, h))[0].lines,
        decreases fs.len() - i,
    {
        let f = &fs[i];
        assert(all[i as int] == f@);
        let ghost before = gather(i as int, hashed(all, h));
        if f.hash == h {
            if sites.len() == 0 {
                size = f.lines;
            }
            sites.push(Site { file: f.file.clone(), name: f.name.clone(), line: f.line });
            assert(gather(i + 1, hashed(all, h)) == before + seq![all[i as int]]);
        } else {
            assert(gather(i + 1, hashed(all, h)) =~= before);
        }
        i += 1;
    }
    proof {
        let g = with_hash(all, h);
        assert(sites@.map_values(|s: Site| s@) =~= g.map_values(
            |f: FuncView| SiteView { file: f.file, name: f.name, line: f.line },
        ));
    }
    (sites, size)
}

fn write_sites(sites: Vec<Site>) -> (r: Vec<(String, String, u32)>)
    ensures
        site_views(r@) == arranged(sites@.map_values(|s: Site| s@)),
        r@.len() == sites@.len(),
{
    proof {
        arranged_mapped(sites@, |s: Site| s@);
        crate::order::arranged_facts(sites@);
    }
    let sorted = arrange(sites);
    let mut r: Vec<(String, String, u32)> = Vec::new();
    let mut i: usize = 0;
    while i < sorted.len()
        invariant
            i <= sorted.len(),
            r.len() == i,
            forall|k: int|
                0 <= k < i ==> (#[trigger] r@[k]).0@ == sorted@[k].file@ && r@[k].1@
                    == sorted@[k].name@ && r@[k].2 == sorted@[k].line,
        decreases sorted.len() - i,
    {
        r.push((sorted[i].file.clone(), sorted[i].name.clone(), sorted[i].line));
        i += 1;
    }
    assert(site_views(r@) =~= sorted@.map_values(|s: Site| s@));
    r
}

/// The groups of functions of a workspace with the same body, where that has at least
/// `min_lines` lines: those with more members first, then those with longer bodies.
pub fn function_clones(ws: &Workspace, min_lines: usize) -> (r: Vec<CloneGroup>)
    ensures
        r@.map_values(|g: CloneGroup| g@) == clone_groups(all_functions(*ws, min_lines as int)),
{
    let fs = list_functions(ws, min_lines);
    let ghost all = func_views(fs@);
    let hs = list_hashes(&fs);
    let mut groups: Vec<CloneGroup> = Vec::new();
    let mut i: usize = 0;
    while i < hs.len()
        invariant
            i <= hs.len(),
            all == func_views(fs@),
            hs@ == hashes(all),
            groups@.map_values(|g: CloneGroup| g@) =~= gather(i as int, group_at(all)),
        decreases hs.len() - i,
    {
        let (sites, size) = make_group(&fs, hs[i]);
        let ghost before = groups@.map_values(|g: CloneGroup| g@);
        if sites.len() > 1 {
            let g = CloneGroup { sites: write_sites(sites), lines: size };
            assert(groups@.push(g).map_values(|g: CloneGroup| g@) =~= before.push(g@));
            groups.push(g);
        }
        i += 1;
    }
    proof {
        assert forall|g: CloneGroup| (#[trigger] g@).rank() == g.rank() by {
            assert(site_views(g.sites@).len() == g.sites@.len());
        }
        arranged_mapped(groups@, |g: CloneGroup| g@);
    }
    arrange(groups)
}

} // verus!
