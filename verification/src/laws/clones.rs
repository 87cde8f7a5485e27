//! Which functions are found in source text, and which of them are copies.
use vstd::prelude::*;

use crate::clones::{
    body_from, clone_groups, code_from, code_of, deepens, functions_in, group_at, hashed, hashes,
    long_enough, opens, plain_lines, rust_functions, rust_name, with_hash, FuncView, GroupView,
    SiteView,
};
use crate::forgotten::tests_from;
use crate::text::{ends, gather, gather_contains, gather_same, lines_of};

verus! {

// ── bodies ─────────────────────────────────────────────────────────────────────────────

/// How much deeper the lines from `a` up to `b` lead: the braces that they open, less those that
/// they close.
pub open spec fn depth_between(ls: Seq<Seq<char>>, a: int, b: int) -> int
    decreases b - a,
{
    if b <= a {
        0
    } else {
        depth_between(ls, a, b - 1) + deepens(ls[b - 1])
    }
}

/// Whether the body of the function that line `start` declares is opened on line `open` and closed
/// on line `close`: the first line with an opening brace, no further down than some lines, and from
/// there on the first line behind which as many braces are closed as are opened.
pub open spec fn body_matches(ls: Seq<Seq<char>>, start: int, open: int, close: int) -> bool {
    &&& 0 <= start <= open <= close < ls.len()
    &&& open <= start + 41
    &&& opens(ls[open])
    &&& forall|m: int| start <= m < open ==> !opens(#[trigger] ls[m])
    &&& forall|m: int| open < m <= close ==> #[trigger] depth_between(ls, start, m) > 0
    &&& depth_between(ls, start, close + 1) <= 0
}

proof fn body_found(ls: Seq<Seq<char>>, start: int, j: int, open: Option<int>)
    requires
        0 <= start <= j,
        match open {
            Some(o) => start <= o < j && o <= start + 41 && opens(ls[o]) && (forall|m: int|
                start <= m < o ==> !opens(#[trigger] ls[m])) && forall|m: int|
                o < m <= j ==> #[trigger] depth_between(ls, start, m) > 0,
            None => j <= start + 41 && forall|m: int| start <= m < j ==> !opens(#[trigger] ls[m]),
        },
    ensures
        match body_from(ls, start, j, depth_between(ls, start, j), open) {
            Some((o, c)) => body_matches(ls, start, o, c) && j <= c,
            None => forall|o: int, c: int|
                j <= c && (match open {
                    Some(x) => x == o,
                    None => true,
                }) ==> !#[trigger] body_matches(ls, start, o, c),
        },
    decreases ls.len() - j,
{
    if j < ls.len() {
        let d = depth_between(ls, start, j) + deepens(ls[j]);
        assert(depth_between(ls, start, j + 1) == d);
        let o = if open is None && opens(ls[j]) {
            Some(j)
        } else {
            open
        };
        match o {
            Some(k) => {
                if d <= 0 {
                    assert(body_matches(ls, start, k, j));
                } else {
                    body_found(ls, start, j + 1, o);
                    if body_from(ls, start, j + 1, d, o) is None {
                        assert forall|x: int, c: int|
                            j <= c && (match open {
                                Some(y) => y == x,
                                None => true,
                            }) implies !#[trigger] body_matches(ls, start, x, c) by {
                            if body_matches(ls, start, x, c) {
                                if open is None {
                                    if x < k {
                                        assert(!opens(ls[x]));
                                    } else if x > k {
                                        assert(!opens(ls[k]));
                                    }
                                }
                                assert(x == k);
                                if c == j {
                                    assert(depth_between(ls, start, j + 1) <= 0);
                                }
                            }
                        }
                    }
                }
            },
            None => {
                if j > start + 40 {
                    assert forall|x: int, c: int| j <= c implies !#[trigger] body_matches(
                        ls,
                        start,
                        x,
                        c,
                    ) by {
                        if body_matches(ls, start, x, c) {
                            assert(x <= j);
                            assert(!opens(ls[x]));
                        }
                    }
                } else {
                    body_found(ls, start, j + 1, o);
                    if body_from(ls, start, j + 1, d, o) is None {
                        assert forall|x: int, c: int| j <= c implies !#[trigger] body_matches(
                            ls,
                            start,
                            x,
                            c,
                        ) by {
                            if body_matches(ls, start, x, c) {
                                if c == j {
                                    assert(!opens(ls[x]));
                                }
                            }
                        }
                    }
                }
            },
        }
    }
}

/// A function has one body at most.
pub proof fn bodies_are_one(ls: Seq<Seq<char>>, start: int, o: int, c: int, p: int, d: int)
    requires
        body_matches(ls, start, o, c),
        body_matches(ls, start, p, d),
    ensures
        o == p,
        c == d,
{
    if o < p {
        assert(!opens(ls[o]));
    }
    if p < o {
        assert(!opens(ls[p]));
    }
    if c < d {
        assert(depth_between(ls, start, c + 1) > 0);
    }
    if d < c {
        assert(depth_between(ls, start, d + 1) > 0);
    }
}

proof fn body_is(ls: Seq<Seq<char>>, start: int)
    requires
        0 <= start,
    ensures
        match body_from(ls, start, start, 0, None) {
            Some((o, c)) => body_matches(ls, start, o, c),
            None => forall|o: int, c: int| !#[trigger] body_matches(ls, start, o, c),
        },
{
    assert(depth_between(ls, start, start) == 0);
    body_found(ls, start, start, None);
}

// ── functions of a file ────────────────────────────────────────────────────────────────

/// A function in source text: the line that declares it, and the lines that open and close its
/// body.
pub struct Spot {
    pub start: int,
    pub open: int,
    pub close: int,
}

/// Whether several spots are those of the Rust functions that begin on the lines before `i`: each is
/// one, none begins within another, and every line that declares a function with a body begins one
/// of them or lies within one.
#[verifier::opaque]
pub open spec fn spots_of(ls: Seq<Seq<char>>, end: int, ss: Seq<Spot>, i: int) -> bool {
    &&& forall|k: int|
        0 <= k < ss.len() ==> (#[trigger] ss[k]).start < end && rust_name(ls[ss[k].start]) is Some
            && body_matches(ls, ss[k].start, ss[k].open, ss[k].close) && ss[k].close < i
    &&& forall|k: int, l: int|
        0 <= k < l < ss.len() ==> (#[trigger] ss[k]).close < (#[trigger] ss[l]).start
    &&& forall|j: int, o: int, c: int|
        0 <= j < i && j < end && rust_name(ls[j]) is Some && #[trigger] body_matches(ls, j, o, c)
            ==> exists|k: int| 0 <= k < ss.len() && (#[trigger] ss[k]).start <= j <= ss[k].close
}

/// What is listed for the function at a spot, where its body is long enough: its file, its name, its
/// line, and its code.
pub open spec fn spot_function(
    file: Seq<char>,
    ls: Seq<Seq<char>>,
    least: int,
    ss: Seq<Spot>,
) -> spec_fn(int) -> Seq<FuncView> {
    |k: int|
        long_enough(
            file,
            rust_name(ls[ss[k].start])->0,
            ss[k].start,
            plain_lines(ls, "//"@, ss[k].open + 1, ss[k].close),
            least,
        )
}

proof fn one_more_spot(ls: Seq<Seq<char>>, end: int, i: int, ss: Seq<Spot>, s: Spot)
    requires
        0 <= i < end <= ls.len(),
        spots_of(ls, end, ss, i),
        s.start == i,
        rust_name(ls[i]) is Some,
        body_matches(ls, i, s.open, s.close),
    ensures
        spots_of(ls, end, ss.push(s), s.close + 1),
{
    reveal(spots_of);
    let more = ss.push(s);
    let n = ss.len() as int;
    let close = s.close;
    assert forall|j: int, o: int, c: int|
        0 <= j < close + 1 && j < end && rust_name(ls[j]) is Some && #[trigger] body_matches(
            ls,
            j,
            o,
            c,
        ) implies exists|k: int|
        0 <= k < more.len() && (#[trigger] more[k]).start <= j <= more[k].close by {
        if j < i {
            let k = choose|k: int| 0 <= k < ss.len() && (#[trigger] ss[k]).start <= j <= ss[k].close;
            assert(more[k] == ss[k]);
        } else {
            assert(more[n] == s);
        }
    }
    assert forall|k: int| 0 <= k < more.len() implies (#[trigger] more[k]).start < end && rust_name(
        ls[more[k].start],
    ) is Some && body_matches(ls, more[k].start, more[k].open, more[k].close) && more[k].close < close
        + 1 by {
        if k < n {
            assert(more[k] == ss[k]);
        }
    }
    assert forall|k: int, l: int| 0 <= k < l < more.len() implies (#[trigger] more[k]).close < (
    #[trigger] more[l]).start by {
        assert(more[k] == ss[k]);
        if l < n {
            assert(more[l] == ss[l]);
        }
    }
}

proof fn no_more_spot(ls: Seq<Seq<char>>, end: int, i: int, ss: Seq<Spot>)
    requires
        0 <= i,
        end <= ls.len(),
        spots_of(ls, end, ss, i),
        i < end ==> rust_name(ls[i]) is None || forall|o: int, c: int|
            !#[trigger] body_matches(ls, i, o, c),
    ensures
        spots_of(ls, end, ss, i + 1),
{
    reveal(spots_of);
    assert forall|j: int, o: int, c: int|
        0 <= j < i + 1 && j < end && rust_name(ls[j]) is Some && #[trigger] body_matches(
            ls,
            j,
            o,
            c,
        ) implies exists|k: int|
        0 <= k < ss.len() && (#[trigger] ss[k]).start <= j <= ss[k].close by {
        assert(j < i);
    }
}

proof fn spots_done(ls: Seq<Seq<char>>, end: int, i: int, ss: Seq<Spot>)
    requires
        0 <= i,
        end <= i,
        end <= ls.len(),
        spots_of(ls, end, ss, i),
    ensures
        spots_of(ls, end, ss, ls.len() as int),
{
    reveal(spots_of);
}

proof fn spots_on(
    file: Seq<char>,
    ls: Seq<Seq<char>>,
    least: int,
    end: int,
    i: int,
    ss: Seq<Spot>,
) -> (qs: Seq<Spot>)
    requires
        0 <= i,
        end <= ls.len(),
        spots_of(ls, end, ss, i),
    ensures
        spots_of(ls, end, qs, ls.len() as int),
        gather(ss.len() as int, spot_function(file, ls, least, ss)) + rust_functions(
            file,
            ls,
            least,
            end,
            i,
        ) == gather(qs.len() as int, spot_function(file, ls, least, qs)),
    decreases ls.len() - i,
{
    let done = gather(ss.len() as int, spot_function(file, ls, least, ss));
    if i >= end {
        assert(done + rust_functions(file, ls, least, end, i) =~= done);
        spots_done(ls, end, i, ss);
        ss
    } else {
        body_is(ls, i);
        match (rust_name(ls[i]), body_from(ls, i, i, 0, None)) {
            (Some(name), Some((open, close))) => {
                let s = Spot { start: i, open, close };
                let more = ss.push(s);
                let n = ss.len() as int;
                one_more_spot(ls, end, i, ss, s);
                let f = spot_function(file, ls, least, ss);
                let g = spot_function(file, ls, least, more);
                assert forall|k: int| 0 <= k < n implies #[trigger] f(k) == g(k) by {
                    assert(more[k] == ss[k]);
                }
                gather_same(n, f, g);
                assert(more[n] == s);
                let here = g(n);
                let rest = rust_functions(file, ls, least, end, close + 1);
                assert(rust_functions(file, ls, least, end, i) == here + rest);
                assert(done + (here + rest) =~= done + here + rest);
                spots_on(file, ls, least, end, close + 1, more)
            },
            (name, body) => {
                no_more_spot(ls, end, i, ss);
                spots_on(file, ls, least, end, i + 1, ss)
            },
        }
    }
}

/// Every function of a Rust file is looked at: what is listed is, one after the other, the functions
/// with long enough bodies that are declared before the tests, but for those that are declared
/// within another.
pub proof fn every_function_is_listed(file: Seq<char>, text: Seq<char>, least: int)
    requires
        !ends(file, ".py"@),
    ensures
        exists|ss: Seq<Spot>| #[trigger]
            spots_of(
                lines_of(text),
                tests_from(lines_of(text), 0),
                ss,
                lines_of(text).len() as int,
            ) && functions_in(file, text, least) == gather(
                ss.len() as int,
                spot_function(file, lines_of(text), least, ss),
            ),
{
    let ls = lines_of(text);
    let end = tests_from(ls, 0);
    tests_bounds(ls, 0);
    let none = Seq::<Spot>::empty();
    assert(spots_of(ls, end, none, 0)) by {
        reveal(spots_of);
    }
    let ss = spots_on(file, ls, least, end, 0, none);
    let all = rust_functions(file, ls, least, end, 0);
    assert(gather(0, spot_function(file, ls, least, none)) + all =~= all);
}

proof fn tests_bounds(ls: Seq<Seq<char>>, i: int)
    requires
        0 <= i <= ls.len(),
    ensures
        i <= tests_from(ls, i) <= ls.len(),
    decreases ls.len() - i,
{
    if i < ls.len() {
        tests_bounds(ls, i + 1);
    }
}

// ── copies ─────────────────────────────────────────────────────────────────────────────

/// A group of copied functions is the whole of what has one body: every site of it is that of a
/// function with that body, and every such function has its site in it.
pub proof fn clone_groups_are_all_the_copies(fs: Seq<FuncView>, g: GroupView)
    requires
        clone_groups(fs).contains(g),
    ensures
        exists|h: u64|
            {
                &&& forall|s: SiteView| #[trigger]
                    g.sites.contains(s) <==> exists|i: int|
                        0 <= i < fs.len() && (#[trigger] fs[i]).hash == h && fs[i].file == s.file
                            && fs[i].name == s.name && fs[i].line == s.line
                &&& exists|i: int|
                    0 <= i < fs.len() && (#[trigger] fs[i]).hash == h && fs[i].lines == g.lines
                &&& #[trigger] with_hash(fs, h).len() == g.sites.len()
            },
{
    let n = hashes(fs).len() as int;
    let all = gather(n, group_at(fs));
    crate::order::arranged_contains(all, g);
    gather_contains(n, group_at(fs), g);
    let q = choose|q: int| 0 <= q < n && (#[trigger] (group_at(fs))(q)).contains(g);
    let one = (group_at(fs))(q);
    let k = choose|k: int| 0 <= k < one.len() && one[k] == g;
    let h = hashes(fs)[q];
    let w = with_hash(fs, h);
    let sites = w.map_values(|f: FuncView| SiteView { file: f.file, name: f.name, line: f.line });
    assert(g.sites == crate::order::arranged(sites));
    crate::order::arranged_facts(sites);
    sites.to_multiset_ensures();
    g.sites.to_multiset_ensures();
    assert(g.sites.len() == w.len());
    assert forall|s: SiteView| #[trigger] g.sites.contains(s) <==> exists|i: int|
        0 <= i < fs.len() && (#[trigger] fs[i]).hash == h && fs[i].file == s.file && fs[i].name
            == s.name && fs[i].line == s.line by {
        crate::order::arranged_contains(sites, s);
        if sites.contains(s) {
            let j = choose|j: int| 0 <= j < sites.len() && sites[j] == s;
            let f = w[j];
            assert(w.contains(f));
            hashed_are(fs, h, f);
            let i = choose|i: int| 0 <= i < fs.len() && fs[i] == f;
            assert(fs[i].hash == h);
        }
        if exists|i: int|
            0 <= i < fs.len() && (#[trigger] fs[i]).hash == h && fs[i].file == s.file && fs[i].name
                == s.name && fs[i].line == s.line {
            let i = choose|i: int|
                0 <= i < fs.len() && (#[trigger] fs[i]).hash == h && fs[i].file == s.file
                    && fs[i].name == s.name && fs[i].line == s.line;
            assert(fs.contains(fs[i]));
            hashed_are(fs, h, fs[i]);
            let j = choose|j: int| 0 <= j < w.len() && w[j] == fs[i];
            assert(sites[j] == s);
        }
    }
    assert(w.contains(w[0]));
    hashed_are(fs, h, w[0]);
    let i = choose|i: int| 0 <= i < fs.len() && fs[i] == w[0];
    assert(fs[i].hash == h && fs[i].lines == g.lines);
}

proof fn hashed_are(fs: Seq<FuncView>, h: u64, f: FuncView)
    ensures
        with_hash(fs, h).contains(f) <==> fs.contains(f) && f.hash == h,
{
    let one = hashed(fs, h);
    gather_contains(fs.len() as int, one, f);
    if with_hash(fs, h).contains(f) {
        let i = choose|i: int| 0 <= i < fs.len() && (#[trigger] one(i)).contains(f);
        let found = one(i);
        let k = choose|k: int| 0 <= k < found.len() && found[k] == f;
        assert(fs[i] == f);
    }
    if fs.contains(f) && f.hash == h {
        let i = choose|i: int| 0 <= i < fs.len() && fs[i] == f;
        assert(one(i)[0] == f);
        assert(one(i).contains(f));
    }
}

// ── code outside of comments and literals ──────────────────────────────────────────────

/// Whether a text holds neither a quote nor a slash.
pub open spec fn bare(s: Seq<char>) -> bool {
    forall|i: int| 0 <= i < s.len() ==> (#[trigger] s[i]) != '"' && s[i] != '\'' && s[i] != '/'
}

proof fn bare_ahead(a: Seq<char>, b: Seq<char>, i: int)
    requires
        bare(a),
        0 <= i <= a.len(),
    ensures
        code_from(a + b, i, None, false) == a.skip(i) + code_from(
            a + b,
            a.len() as int,
            None,
            false,
        ),
    decreases a.len() - i,
{
    let s = a + b;
    if i < a.len() {
        assert(s[i] == a[i]);
        bare_ahead(a, b, i + 1);
        assert(seq![s[i]] + (a.skip(i + 1) + code_from(s, a.len() as int, None, false)) =~= a.skip(i)
            + code_from(s, a.len() as int, None, false));
    } else {
        assert(a.skip(i) + code_from(s, i, None, false) =~= code_from(s, i, None, false));
    }
}

proof fn rest_of_code(a: Seq<char>, b: Seq<char>, i: int, quote: Option<char>, escaped: bool)
    requires
        0 <= i <= b.len(),
    ensures
        code_from(a + b, a.len() + i, quote, escaped) == code_from(b, i, quote, escaped),
    decreases b.len() - i,
{
    let s = a + b;
    if i < b.len() {
        assert(s[a.len() + i] == b[i]);
        if i + 1 < b.len() {
            assert(s[a.len() + i + 1] == b[i + 1]);
        }
        let c = b[i];
        match quote {
            Some(d) => {
                if escaped {
                    rest_of_code(a, b, i + 1, quote, false);
                } else if c == '\\' {
                    rest_of_code(a, b, i + 1, quote, true);
                } else if c == d {
                    rest_of_code(a, b, i + 1, None, false);
                } else {
                    rest_of_code(a, b, i + 1, quote, false);
                }
            },
            None => {
                if c == '"' || c == '\'' {
                    rest_of_code(a, b, i + 1, Some(c), escaped);
                } else {
                    rest_of_code(a, b, i + 1, None, escaped);
                }
            },
        }
    }
}

proof fn within_literal(s: Seq<char>, q: char, i: int, end: int)
    requires
        0 <= i <= end < s.len(),
        s[end] == q,
        q == '"' || q == '\'',
        forall|j: int| i <= j < end ==> (#[trigger] s[j]) != q && s[j] != '\\',
    ensures
        code_from(s, i, Some(q), false) == code_from(s, end + 1, None, false),
    decreases end - i,
{
    if i < end {
        within_literal(s, q, i + 1, end);
    }
}

/// What stands in a comment does not count as code, and neither does what stands in a literal: code
/// without quotes and slashes counts as it is, what comes behind two slashes does not count, and a
/// literal is passed over up to the quote that closes it.
pub proof fn comments_and_literals_do_not_count(
    a: Seq<char>,
    lit: Seq<char>,
    q: char,
    b: Seq<char>,
)
    requires
        bare(a),
        q == '"' || q == '\'',
        forall|j: int| 0 <= j < lit.len() ==> (#[trigger] lit[j]) != q && lit[j] != '\\',
    ensures
        code_of(a) == a,
        code_of(a + (seq!['/', '/'] + b)) == a,
        code_of(a + (seq![q] + (lit + (seq![q] + b)))) == a + code_of(b),
{
    let n = a.len() as int;
    bare_ahead(a, Seq::empty(), 0);
    assert(a + Seq::<char>::empty() =~= a);
    assert(a.skip(0) + Seq::<char>::empty() =~= a);
    let c = seq!['/', '/'] + b;
    bare_ahead(a, c, 0);
    rest_of_code(a, c, 0, None, false);
    assert(c[0] == '/' && c[1] == '/');
    assert(code_from(c, 0, None, false) =~= Seq::empty());
    assert(a.skip(0) =~= a);
    let d = seq![q] + (lit + (seq![q] + b));
    bare_ahead(a, d, 0);
    rest_of_code(a, d, 0, None, false);
    assert(d[0] == q);
    let end = 1 + lit.len();
    assert(d[end as int] == q);
    assert forall|j: int| 1 <= j < end implies (#[trigger] d[j]) != q && d[j] != '\\' by {
        assert(d[j] == lit[j - 1]);
    }
    within_literal(d, q, 1, end as int);
    assert(code_from(d, 0, None, false) == code_from(d, 1, Some(q), false));
    let head = seq![q] + lit + seq![q];
    assert(d =~= head + b);
    rest_of_code(head, b, 0, None, false);
}

} // verus!
