//! How functions are declared, and what counts as their code.
use vstd::prelude::*;

use crate::clones::{
    block_end, brackets_from, code_of, deepens, depth_upto, functions_in, indent, long_enough,
    opens, plain_at, plain_line, plain_lines, python_body, python_functions, python_name, rust_name,
    signature_end, FuncView,
};
use crate::forgotten::tests_from;
use crate::laws::forgotten::tests_begin_at_the_first;
use crate::laws::lines::{at_behind, blank_upto, blanks_end};
use crate::text::{
    ascii_alphanumeric, at, count_from, ends, find, find_from_facts, gather, gather_contains,
    gather_same, in_class, joined, joined_upto, lead, lines_of, occurs, runs_from, span_from,
    span_from_bounds, starts, trimmed_start, white, Class,
};

verus! {

// ── names ──────────────────────────────────────────────────────────────────────────────

/// Whether a name stands in a line at position `k`: letters, digits and underscores, at least one,
/// and none right behind it.
pub open spec fn name_at(line: Seq<char>, name: Seq<char>, k: int) -> bool {
    &&& at(line, name, k)
    &&& name.len() > 0
    &&& forall|j: int| 0 <= j < name.len() ==> in_class(Class::Ident, #[trigger] name[j])
    &&& k + name.len() < line.len() ==> !in_class(Class::Ident, line[k + name.len()])
}

/// A name stands in a line where it is all that leads the rest of it.
pub proof fn leading_name(line: Seq<char>, name: Seq<char>, k: int)
    requires
        0 <= k <= line.len(),
    ensures
        name_at(line, name, k) <==> lead(line.skip(k), Class::Ident) == name && name.len() > 0,
{
    let rest = line.skip(k);
    let n = span_from(rest, Class::Ident, 0);
    span_from_bounds(rest, Class::Ident, 0);
    let got = lead(rest, Class::Ident);
    assert(line.subrange(k, k + n) =~= got);
    if n < rest.len() {
        assert(rest[n] == line[n + k]);
    }
    if name_at(line, name, k) {
        let q = name.len() as int;
        assert forall|j: int| 0 <= j < q implies rest[j] == name[j] by {
            assert(line.subrange(k, k + q)[j] == line[k + j]);
        }
        if n < q {
            assert(in_class(Class::Ident, name[n]));
        } else if q < n {
            assert(in_class(Class::Ident, rest[q]));
            assert(rest[q] == line[k + q]);
        }
        assert(got =~= name);
    }
    if got == name && name.len() > 0 {
        assert forall|j: int| 0 <= j < name.len() implies in_class(Class::Ident, #[trigger] name[j]) by {
            assert(in_class(Class::Ident, rest[j]));
        }
    }
}

/// Whether an opening bracket stands in a line at or behind position `k`.
pub open spec fn bracket_behind(line: Seq<char>, k: int) -> bool {
    exists|j: int| k <= j < line.len() && #[trigger] line[j] == '('
}

proof fn bracket_is(line: Seq<char>, k: int)
    requires
        0 <= k <= line.len(),
    ensures
        bracket_behind(line, k) <==> occurs(line.skip(k), "("@),
{
    reveal_strlit("(");
    let rest = line.skip(k);
    if occurs(rest, "("@) {
        let i = choose|i: int| at(rest, "("@, i);
        assert(rest.subrange(i, i + 1)[0] == rest[i]);
        assert(line[k + i] == '(');
    }
    if bracket_behind(line, k) {
        let j = choose|j: int| k <= j < line.len() && #[trigger] line[j] == '(';
        assert(rest[j - k] == '(');
        assert(rest.subrange(j - k, j - k + 1) =~= "("@);
        assert(at(rest, "("@, j - k));
    }
}

/// Whether `fn` and a space stand in a line at position `k`.
pub open spec fn fn_at(line: Seq<char>, k: int) -> bool {
    at(line, seq!['f', 'n', ' '], k)
}

/// Whether a line declares a Rust function: its first `fn` with a space, with no letter or digit
/// before it, is followed by the name, and an opening bracket comes behind it.
pub open spec fn declares_rust(line: Seq<char>, name: Seq<char>, k: int) -> bool {
    &&& fn_at(line, k)
    &&& forall|j: int| 0 <= j < k ==> !#[trigger] fn_at(line, j)
    &&& k > 0 ==> !ascii_alphanumeric(line[k - 1])
    &&& name_at(line, name, k + 3)
    &&& bracket_behind(line, k + 3)
}

proof fn white_is_no_letter(c: char)
    ensures
        white(c) ==> !ascii_alphanumeric(c) && c != 'f',
{
}

/// The name of the Rust function that a line declares is what stands behind `fn`.
pub proof fn rust_names_stand_behind_fn(line: Seq<char>, name: Seq<char>)
    ensures
        rust_name(line) == Some(name) <==> exists|k: int| #[trigger] declares_rust(line, name, k),
{
    let p = seq!['f', 'n', ' '];
    reveal_strlit("fn ");
    assert("fn "@ =~= p);
    let t = trimmed_start(line);
    let w = span_from(line, Class::White, 0);
    blanks_end(line);
    find_from_facts(t, p, 0);
    assert forall|j: int| 0 <= j < w implies !#[trigger] fn_at(line, j) by {
        if at(line, p, j) {
            assert(line.subrange(j, j + 3)[0] == line[j]);
            assert(white(line[j]));
            white_is_no_letter(line[j]);
        }
    }
    assert forall|j: int| w <= j implies #[trigger] fn_at(line, j) == at(t, p, j - w) by {
        at_behind(line, p, w, j - w);
    }
    match find(t, p) {
        Some(i) => {
            let k = w + i;
            assert(fn_at(line, k));
            assert(line.skip(k + 3) =~= t.skip(i + 3));
            leading_name(line, name, k + 3);
            bracket_is(line, k + 3);
            assert forall|j: int| 0 <= j < k implies !#[trigger] fn_at(line, j) by {
                if j >= w {
                    assert(!at(t, p, j - w));
                }
            }
            if k > 0 {
                if i > 0 {
                    assert(line[k - 1] == t[i - 1]);
                } else {
                    assert(white(line[k - 1]));
                    white_is_no_letter(line[k - 1]);
                }
            }
            if rust_name(line) == Some(name) {
                assert(declares_rust(line, name, k));
            }
            if exists|m: int| #[trigger] declares_rust(line, name, m) {
                let m = choose|m: int| #[trigger] declares_rust(line, name, m);
                if m < k {
                    assert(!fn_at(line, m));
                } else if k < m {
                    assert(!fn_at(line, k));
                }
            }
        },
        None => {
            if exists|m: int| #[trigger] declares_rust(line, name, m) {
                let m = choose|m: int| #[trigger] declares_rust(line, name, m);
                assert(fn_at(line, m));
                assert(m >= w);
                assert(at(t, p, m - w));
            }
        },
    }
}

/// Whether a line declares a Python function: behind whitespace it begins with `def` or `async def`,
/// up to position `k`, where the name stands, and an opening bracket comes behind it.
pub open spec fn declares_python(line: Seq<char>, name: Seq<char>, w: int, k: int) -> bool {
    &&& blank_upto(line, w)
    &&& (at(line, seq!['d', 'e', 'f', ' '], w) && k == w + 4) || (at(
        line,
        seq!['a', 's', 'y', 'n', 'c', ' ', 'd', 'e', 'f', ' '],
        w,
    ) && k == w + 10)
    &&& name_at(line, name, k)
    &&& bracket_behind(line, k)
}

/// The name of the Python function that a line declares is what stands behind `def`.
pub proof fn python_names_stand_behind_def(line: Seq<char>, name: Seq<char>)
    ensures
        python_name(line) == Some(name) <==> exists|w: int, k: int| #[trigger]
            declares_python(line, name, w, k),
{
    let p = seq!['d', 'e', 'f', ' '];
    let q = seq!['a', 's', 'y', 'n', 'c', ' ', 'd', 'e', 'f', ' '];
    reveal_strlit("def ");
    reveal_strlit("async def ");
    assert("def "@ =~= p);
    assert("async def "@ =~= q);
    let t = trimmed_start(line);
    let w = span_from(line, Class::White, 0);
    blanks_end(line);
    at_behind(line, p, w, 0);
    at_behind(line, q, w, 0);
    if starts(t, p) {
        let k = w + 4;
        assert(line.skip(k) =~= t.skip(4));
        leading_name(line, name, k);
        bracket_is(line, k);
        assert(t.subrange(0, 4)[0] == t[0]);
        if python_name(line) == Some(name) {
            assert(declares_python(line, name, w, k));
        }
    } else if starts(t, q) {
        let k = w + 10;
        assert(line.skip(k) =~= t.skip(10));
        leading_name(line, name, k);
        bracket_is(line, k);
        if python_name(line) == Some(name) {
            assert(declares_python(line, name, w, k));
        }
    }
    if exists|v: int, k: int| #[trigger] declares_python(line, name, v, k) {
        let (v, k) = choose|v: int, k: int| #[trigger] declares_python(line, name, v, k);
        if at(line, p, v) {
            assert(line.subrange(v, v + 4)[0] == line[v]);
            assert(line[v] == 'd');
        } else {
            assert(line.subrange(v, v + 10)[0] == line[v]);
            assert(line[v] == 'a');
        }
        if v < w {
            assert(white(line[v]));
        } else if w < v {
            assert(white(line[w]));
        }
        assert(v == w);
        if starts(t, p) && starts(t, q) {
            assert(t.subrange(0, 4)[0] == t[0]);
            assert(t.subrange(0, 10)[0] == t[0]);
        }
    }
}

// ── signatures and blocks ──────────────────────────────────────────────────────────────

/// Whether a text holds neither quotes nor a number sign.
pub open spec fn without_marks(s: Seq<char>) -> bool {
    forall|i: int| 0 <= i < s.len() ==> (#[trigger] s[i]) != '"' && s[i] != '\'' && s[i] != '#'
}

/// Whether a character opens a bracket.
pub open spec fn opening(c: char) -> bool {
    c == '(' || c == '[' || c == '{'
}

/// Whether a character closes a bracket.
pub open spec fn closing(c: char) -> bool {
    c == ')' || c == ']' || c == '}'
}

/// How many of the characters of a text open brackets.
pub open spec fn opened(s: Seq<char>) -> int {
    s.filter(|c: char| opening(c)).len() as int
}

/// How many of the characters of a text close brackets.
pub open spec fn closed(s: Seq<char>) -> int {
    s.filter(|c: char| closing(c)).len() as int
}

proof fn one_more(s: Seq<char>, n: int)
    requires
        0 <= n < s.len(),
    ensures
        opened(s.take(n + 1)) == opened(s.take(n)) + (if opening(s[n]) {
            1int
        } else {
            0
        }),
        closed(s.take(n + 1)) == closed(s.take(n)) + (if closing(s[n]) {
            1int
        } else {
            0
        }),
{
    reveal(Seq::filter);
    let t = s.take(n + 1);
    assert(t.drop_last() =~= s.take(n));
    assert(t.last() == s[n]);
}

/// Whether no bracket is closed that is not open, with `depth` of them open before a text.
pub open spec fn never_below(s: Seq<char>, depth: int) -> bool {
    forall|n: int|
        0 <= n <= s.len() ==> 0 <= depth + #[trigger] opened(s.take(n)) - closed(s.take(n))
            <= usize::MAX
}

proof fn brackets_upto(a: Seq<char>, b: Seq<char>, i: int, depth: usize)
    requires
        without_marks(a),
        never_below(a, depth as int),
        0 <= i <= a.len(),
    ensures
        brackets_from(
            a + b,
            i,
            (depth + opened(a.take(i)) - closed(a.take(i))) as usize,
            None,
        ) == brackets_from(
            a + b,
            a.len() as int,
            (depth + opened(a) - closed(a)) as usize,
            None,
        ),
    decreases a.len() - i,
{
    let s = a + b;
    assert(a.take(a.len() as int) =~= a);
    assert(0 <= depth + opened(a.take(i)) - closed(a.take(i)) <= usize::MAX);
    if i < a.len() {
        assert(s[i] == a[i]);
        one_more(a, i);
        assert(0 <= depth + opened(a.take(i + 1)) - closed(a.take(i + 1)) <= usize::MAX);
        brackets_upto(a, b, i + 1, depth);
    }
}

proof fn rest_of_brackets(a: Seq<char>, b: Seq<char>, i: int, depth: usize, quote: Option<char>)
    requires
        0 <= i,
    ensures
        brackets_from(a + b, a.len() + i, depth, quote) == brackets_from(b, i, depth, quote),
    decreases b.len() - i,
{
    let s = a + b;
    if i < b.len() {
        assert(s[a.len() + i] == b[i]);
        let c = b[i];
        let up = if depth < usize::MAX {
            (depth + 1) as usize
        } else {
            depth
        };
        let down = if depth > 0 {
            (depth - 1) as usize
        } else {
            depth
        };
        if i + 1 < b.len() {
            rest_of_brackets(a, b, i + 2, depth, quote);
        }
        rest_of_brackets(a, b, i + 1, depth, None);
        rest_of_brackets(a, b, i + 1, depth, quote);
        rest_of_brackets(a, b, i + 1, depth, Some(c));
        rest_of_brackets(a, b, i + 1, up, None);
        rest_of_brackets(a, b, i + 1, down, None);
    }
}

proof fn within_string(s: Seq<char>, q: char, i: int, end: int, depth: usize)
    requires
        0 <= i <= end < s.len(),
        s[end] == q,
        q == '"' || q == '\'',
        forall|j: int| i <= j < end ==> (#[trigger] s[j]) != q && s[j] != '\\',
    ensures
        brackets_from(s, i, depth, Some(q)) == brackets_from(s, end + 1, depth, None),
    decreases end - i,
{
    if i < end {
        within_string(s, q, i + 1, end, depth);
    }
}

/// Brackets count in Python code, each as one, but not in comments and strings: code without quotes
/// and number signs adds the brackets that it opens and takes off those that it closes, nothing
/// behind a number sign counts, and a string is passed over up to the quote that closes it.
pub proof fn brackets_count_outside_of_strings(
    a: Seq<char>,
    depth: usize,
    lit: Seq<char>,
    q: char,
    b: Seq<char>,
)
    requires
        without_marks(a),
        never_below(a, depth as int),
        q == '"' || q == '\'',
        forall|j: int| 0 <= j < lit.len() ==> (#[trigger] lit[j]) != q && lit[j] != '\\',
    ensures
        brackets_from(a, 0, depth, None) == depth + opened(a) - closed(a),
        brackets_from(a + (seq!['#'] + b), 0, depth, None) == depth + opened(a) - closed(a),
        brackets_from(a + (seq![q] + (lit + (seq![q] + b))), 0, depth, None) == brackets_from(
            b,
            0,
            (depth + opened(a) - closed(a)) as usize,
            None,
        ),
{
    reveal(Seq::filter);
    assert(a.take(0).len() == 0);
    assert(opened(a.take(0)) == 0 && closed(a.take(0)) == 0);
    assert(a.take(a.len() as int) =~= a);
    assert(0 <= depth + opened(a.take(a.len() as int)) - closed(a.take(a.len() as int)) <= usize::MAX);
    let d = (depth + opened(a) - closed(a)) as usize;
    brackets_upto(a, Seq::empty(), 0, depth);
    assert(a + Seq::<char>::empty() =~= a);
    let c = seq!['#'] + b;
    brackets_upto(a, c, 0, depth);
    rest_of_brackets(a, c, 0, d, None);
    assert(c[0] == '#');
    let e = seq![q] + (lit + (seq![q] + b));
    brackets_upto(a, e, 0, depth);
    rest_of_brackets(a, e, 0, d, None);
    assert(e[0] == q);
    let end = 1 + lit.len() as int;
    assert(e[end] == q);
    assert forall|j: int| 1 <= j < end implies (#[trigger] e[j]) != q && e[j] != '\\' by {
        assert(e[j] == lit[j - 1]);
    }
    within_string(e, q, 1, end, d);
    assert(brackets_from(e, 0, d, None) == brackets_from(e, 1, d, Some(q)));
    let head = seq![q] + lit + seq![q];
    assert(e =~= head + b);
    rest_of_brackets(head, b, 0, d, None);
}

/// How many brackets are open behind the lines from `a` up to `b`.
pub open spec fn open_behind(ls: Seq<Seq<char>>, a: int, b: int) -> usize
    decreases b - a,
{
    if b <= a {
        0
    } else {
        brackets_from(ls[b - 1], 0, open_behind(ls, a, b - 1), None)
    }
}

/// Whether the signature of the function that line `i` declares ends before line `body`: the first
/// line behind which no bracket is open, or, where there is none, the line itself.
pub open spec fn signature_upto(ls: Seq<Seq<char>>, i: int, body: int) -> bool {
    ||| {
        &&& i < body <= ls.len()
        &&& open_behind(ls, i, body) == 0
        &&& forall|m: int| i < m < body ==> #[trigger] open_behind(ls, i, m) > 0
    }
    ||| {
        &&& body == i + 1
        &&& forall|m: int| i < m <= ls.len() ==> #[trigger] open_behind(ls, i, m) > 0
    }
}

proof fn signature_on(ls: Seq<Seq<char>>, i: int, j: int)
    requires
        0 <= i <= j <= ls.len(),
        forall|m: int| i < m <= j ==> #[trigger] open_behind(ls, i, m) > 0,
    ensures
        match signature_end(ls, j, open_behind(ls, i, j)) {
            Some(b) => j < b <= ls.len() && open_behind(ls, i, b) == 0 && forall|m: int|
                i < m < b ==> #[trigger] open_behind(ls, i, m) > 0,
            None => forall|m: int| i < m <= ls.len() ==> #[trigger] open_behind(ls, i, m) > 0,
        },
    decreases ls.len() - j,
{
    if j < ls.len() {
        let open = brackets_from(ls[j], 0, open_behind(ls, i, j), None);
        assert(open_behind(ls, i, j + 1) == open);
        if open != 0 {
            signature_on(ls, i, j + 1);
        }
    }
}

/// The body of a Python function begins behind its signature.
pub proof fn bodies_follow_signatures(ls: Seq<Seq<char>>, i: int)
    requires
        0 <= i < ls.len(),
    ensures
        signature_upto(ls, i, python_body(ls, i)),
        i < python_body(ls, i) <= ls.len(),
{
    signature_on(ls, i, i);
}

/// Whether a line begins with at least `n` whitespace characters.
pub open spec fn indented(line: Seq<char>, n: int) -> bool {
    n <= line.len() && forall|j: int| 0 <= j < n ==> white(#[trigger] line[j])
}

/// Whether a line is nothing but whitespace.
pub open spec fn blank(line: Seq<char>) -> bool {
    indented(line, line.len() as int)
}

/// Whether the block that begins at line `body`, below a line with this indentation, ends at line
/// `next`: the lines before it are blank or further indented, and it is neither.
pub open spec fn block_upto(ls: Seq<Seq<char>>, depth: int, body: int, next: int) -> bool {
    &&& body <= next <= ls.len()
    &&& forall|j: int|
        body <= j < next ==> blank(#[trigger] ls[j]) || indented(ls[j], depth + 1)
    &&& next < ls.len() ==> !blank(ls[next]) && !indented(ls[next], depth + 1)
}

proof fn indent_is(line: Seq<char>, depth: int)
    requires
        0 <= depth,
    ensures
        0 <= indent(line) <= line.len(),
        blank(line) <==> indent(line) == line.len(),
        indented(line, depth + 1) <==> indent(line) > depth,
        indented(line, indent(line)),
        indent(line) < line.len() ==> !white(line[indent(line)]),
{
    blanks_end(line);
    let w = indent(line);
    if blank(line) && w < line.len() {
        assert(white(line[w]));
    }
    if indented(line, depth + 1) && w <= depth {
        assert(white(line[w]));
    }
}

/// A block goes on as long as its lines are blank or further indented than the line above it.
pub proof fn blocks_end_where_indentation_ends(ls: Seq<Seq<char>>, depth: int, body: int)
    requires
        0 <= depth,
        0 <= body <= ls.len(),
    ensures
        block_upto(ls, depth, body, block_end(ls, depth, body)),
    decreases ls.len() - body,
{
    if body < ls.len() {
        indent_is(ls[body], depth);
        if !(indent(ls[body]) < ls[body].len() && indent(ls[body]) <= depth) {
            blocks_end_where_indentation_ends(ls, depth, body + 1);
        }
    }
}

// ── functions of a Python file ─────────────────────────────────────────────────────────

/// A Python function in source text: the line that declares it, the first line of its body, and the
/// line behind it.
pub struct PythonSpot {
    pub start: int,
    pub body: int,
    pub next: int,
}

/// Whether a spot is that of a Python function.
pub open spec fn python_spot(ls: Seq<Seq<char>>, s: PythonSpot) -> bool {
    &&& 0 <= s.start < s.body <= s.next <= ls.len()
    &&& python_name(ls[s.start]) is Some
    &&& signature_upto(ls, s.start, s.body)
    &&& block_upto(ls, indent(ls[s.start]), s.body, s.next)
}

/// Whether several spots are those of the Python functions that begin before `i`: none begins within
/// another, and every line that declares a function begins one or lies within one.
#[verifier::opaque]
pub open spec fn python_spots(ls: Seq<Seq<char>>, end: int, ss: Seq<PythonSpot>, i: int) -> bool {
    &&& forall|k: int|
        0 <= k < ss.len() ==> python_spot(ls, #[trigger] ss[k]) && ss[k].start < end && ss[k].next
            <= i
    &&& forall|k: int, l: int|
        0 <= k < l < ss.len() ==> (#[trigger] ss[k]).next <= (#[trigger] ss[l]).start
    &&& forall|j: int|
        0 <= j < i && j < end && #[trigger] python_name(ls[j]) is Some ==> exists|k: int|
            0 <= k < ss.len() && (#[trigger] ss[k]).start <= j < ss[k].next
}

/// What is listed for the Python function at a spot: nothing for a test, and otherwise its file, its
/// name, its line and its code, where that is long enough.
pub open spec fn python_listed(
    file: Seq<char>,
    ls: Seq<Seq<char>>,
    least: int,
    ss: Seq<PythonSpot>,
) -> spec_fn(int) -> Seq<FuncView> {
    |k: int|
        if at(python_name(ls[ss[k].start])->0, seq!['t', 'e', 's', 't', '_'], 0) {
            seq![]
        } else {
            long_enough(
                file,
                python_name(ls[ss[k].start])->0,
                ss[k].start,
                plain_lines(ls, seq!['#'], ss[k].body, ss[k].next),
                least,
            )
        }
}

proof fn next_spot(ls: Seq<Seq<char>>, end: int, i: int, ss: Seq<PythonSpot>, s: PythonSpot)
    requires
        0 <= i < end <= ls.len(),
        python_spots(ls, end, ss, i),
        s.start == i,
        python_spot(ls, s),
    ensures
        python_spots(ls, end, ss.push(s), s.next),
{
    reveal(python_spots);
    let more = ss.push(s);
    let n = ss.len() as int;
    assert(more[n] == s);
    assert forall|j: int| 0 <= j < s.next && j < end && #[trigger] python_name(ls[j]) is Some implies exists|
        k: int,
    | 0 <= k < more.len() && (#[trigger] more[k]).start <= j < more[k].next by {
        if j < i {
            let k = choose|k: int| 0 <= k < ss.len() && (#[trigger] ss[k]).start <= j < ss[k].next;
            assert(more[k] == ss[k]);
        }
    }
    assert forall|k: int| 0 <= k < more.len() implies python_spot(ls, #[trigger] more[k]) && more[k].start
        < end && more[k].next <= s.next by {
        if k < n {
            assert(more[k] == ss[k]);
        }
    }
    assert forall|k: int, l: int| 0 <= k < l < more.len() implies (#[trigger] more[k]).next <= (
    #[trigger] more[l]).start by {
        assert(more[k] == ss[k]);
        if l < n {
            assert(more[l] == ss[l]);
        }
    }
}

proof fn no_spot(ls: Seq<Seq<char>>, end: int, i: int, ss: Seq<PythonSpot>)
    requires
        0 <= i < end,
        python_spots(ls, end, ss, i),
        python_name(ls[i]) is None,
    ensures
        python_spots(ls, end, ss, i + 1),
{
    reveal(python_spots);
}

proof fn all_spots(ls: Seq<Seq<char>>, end: int, i: int, ss: Seq<PythonSpot>)
    requires
        end <= i <= ls.len(),
        python_spots(ls, end, ss, i),
    ensures
        python_spots(ls, end, ss, ls.len() as int),
{
    reveal(python_spots);
}

proof fn python_on(
    file: Seq<char>,
    ls: Seq<Seq<char>>,
    least: int,
    end: int,
    i: int,
    ss: Seq<PythonSpot>,
) -> (qs: Seq<PythonSpot>)
    requires
        0 <= i <= ls.len(),
        end <= ls.len(),
        python_spots(ls, end, ss, i),
    ensures
        python_spots(ls, end, qs, ls.len() as int),
        gather(ss.len() as int, python_listed(file, ls, least, ss)) + python_functions(
            file,
            ls,
            least,
            end,
            i,
        ) == gather(qs.len() as int, python_listed(file, ls, least, qs)),
    decreases ls.len() - i,
{
    let done = gather(ss.len() as int, python_listed(file, ls, least, ss));
    if i >= end {
        assert(done + python_functions(file, ls, least, end, i) =~= done);
        all_spots(ls, end, i, ss);
        ss
    } else {
        match python_name(ls[i]) {
            None => {
                no_spot(ls, end, i, ss);
                python_on(file, ls, least, end, i + 1, ss)
            },
            Some(name) => {
                let body = python_body(ls, i);
                bodies_follow_signatures(ls, i);
                indent_is(ls[i], 0);
                blocks_end_where_indentation_ends(ls, indent(ls[i]), body);
                let next = block_end(ls, indent(ls[i]), body);
                let s = PythonSpot { start: i, body, next };
                assert(python_spot(ls, s));
                next_spot(ls, end, i, ss, s);
                let more = ss.push(s);
                let n = ss.len() as int;
                let f = python_listed(file, ls, least, ss);
                let g = python_listed(file, ls, least, more);
                assert forall|k: int| 0 <= k < n implies #[trigger] f(k) == g(k) by {
                    assert(more[k] == ss[k]);
                }
                gather_same(n, f, g);
                assert(more[n] == s);
                reveal_strlit("test_");
                assert("test_"@ =~= seq!['t', 'e', 's', 't', '_']);
                reveal_strlit("#");
                assert("#"@ =~= seq!['#']);
                let here = g(n);
                let rest = python_functions(file, ls, least, end, next);
                assert(python_functions(file, ls, least, end, i) =~= here + rest);
                assert(done + (here + rest) =~= done + here + rest);
                python_on(file, ls, least, end, next, more)
            },
        }
    }
}

/// Every function of a Python file is looked at: what is listed is, one after the other, the
/// functions with long enough bodies that are declared before the tests, but for tests and for those
/// that are declared within another.
pub proof fn every_python_function_is_listed(file: Seq<char>, text: Seq<char>, least: int)
    requires
        at(file, seq!['.', 'p', 'y'], file.len() - 3),
    ensures
        exists|ss: Seq<PythonSpot>| #[trigger]
            python_spots(
                lines_of(text),
                tests_from(lines_of(text), 0),
                ss,
                lines_of(text).len() as int,
            ) && functions_in(file, text, least) == gather(
                ss.len() as int,
                python_listed(file, lines_of(text), least, ss),
            ),
{
    reveal_strlit(".py");
    assert(".py"@ =~= seq!['.', 'p', 'y']);
    let ls = lines_of(text);
    let end = tests_from(ls, 0);
    tests_begin_at_the_first(ls);
    let none = Seq::<PythonSpot>::empty();
    assert(python_spots(ls, end, none, 0)) by {
        reveal(python_spots);
    }
    let ss = python_on(file, ls, least, end, 0, none);
    let all = python_functions(file, ls, least, end, 0);
    assert(gather(0, python_listed(file, ls, least, none)) + all =~= all);
}

// ── the code of a line ─────────────────────────────────────────────────────────────────

/// Whether a character is none of the whitespace.
pub open spec fn solid(c: char) -> bool {
    !white(c)
}

/// The characters of a text but for the whitespace.
pub open spec fn solids(s: Seq<char>) -> Seq<char> {
    s.filter(|c: char| solid(c))
}

proof fn solids_add(a: Seq<char>, b: Seq<char>)
    ensures
        solids(a + b) == solids(a) + solids(b),
{
    Seq::<char>::filter_distributes_over_add(a, b, |c: char| solid(c));
}

proof fn solids_one(c: char)
    ensures
        white(c) ==> solids(seq![c]) == Seq::<char>::empty(),
{
    reveal_with_fuel(Seq::filter, 3);
    let one = seq![c];
    assert(one.drop_last() =~= Seq::empty());
    assert(one.last() == c);
    assert(solids(one.drop_last()) =~= Seq::empty());
}

proof fn joined_first(x: Seq<char>, rest: Seq<Seq<char>>, sep: Seq<char>, n: int)
    requires
        1 <= n <= rest.len(),
    ensures
        joined_upto(seq![x] + rest, sep, n + 1) == x + sep + joined_upto(rest, sep, n),
    decreases n,
{
    let all = seq![x] + rest;
    assert(all[n] == rest[n - 1]);
    if n == 1 {
        assert(joined_upto(all, sep, 1) == x);
        assert(joined_upto(all, sep, 2) == x + sep + rest[0]);
    } else {
        joined_first(x, rest, sep, n - 1);
        assert(joined_upto(all, sep, n + 1) == joined_upto(all, sep, n) + sep + all[n]);
        assert(x + sep + joined_upto(rest, sep, n - 1) + sep + rest[n - 1] =~= x + sep + (joined_upto(
            rest,
            sep,
            n - 1,
        ) + sep + rest[n - 1]));
    }
}

proof fn words_on(s: Seq<char>, i: int)
    requires
        0 <= i <= s.len(),
    ensures
        solids(joined(runs_from(s, Class::Solid, i), " "@)) == solids(s.skip(i)),
        forall|k: int|
            0 <= k < runs_from(s, Class::Solid, i).len() ==> (#[trigger] runs_from(
                s,
                Class::Solid,
                i,
            )[k]).len() > 0,
    decreases s.len() - i,
{
    reveal_strlit(" ");
    reveal(Seq::filter);
    if i < s.len() {
        if in_class(Class::Solid, s[i]) {
            let j = span_from(s, Class::Solid, i);
            span_from_bounds(s, Class::Solid, i);
            span_from_bounds(s, Class::Solid, i + 1);
            words_on(s, j);
            let x = s.subrange(i, j);
            let rest = runs_from(s, Class::Solid, j);
            let all = runs_from(s, Class::Solid, i);
            assert(all == seq![x] + rest);
            solids_add(x, s.skip(j));
            assert(x + s.skip(j) =~= s.skip(i));
            if rest.len() == 0 {
                assert(joined(all, " "@) == x);
                assert(joined(rest, " "@).len() == 0);
                assert(solids(x) + solids(s.skip(j)) =~= solids(x));
            } else {
                joined_first(x, rest, " "@, rest.len() as int);
                solids_add(x + " "@, joined(rest, " "@));
                solids_add(x, " "@);
                assert(" "@ =~= seq![' ']);
                solids_one(' ');
                assert(solids(x) + solids(" "@) =~= solids(x));
            }
            assert forall|k: int| 0 <= k < all.len() implies (#[trigger] all[k]).len() > 0 by {
                if k > 0 {
                    assert(all[k] == rest[k - 1]);
                }
            }
        } else {
            words_on(s, i + 1);
            let one = seq![s[i]];
            assert(one + s.skip(i + 1) =~= s.skip(i));
            solids_add(one, s.skip(i + 1));
            solids_one(s[i]);
            assert(Seq::<char>::empty() + solids(s.skip(i + 1)) =~= solids(s.skip(i + 1)));
        }
    } else {
        assert(s.skip(i) =~= Seq::empty());
    }
}

/// The code of a line holds, but for whitespace, the characters of the line in their order, up to
/// the first comment mark where there is one that an even number of double quotes stands before.
pub proof fn code_keeps_what_is_no_comment(line: Seq<char>, comment: Seq<char>)
    ensures
        match find(line, comment) {
            Some(p) => 0 <= p && at(line, comment, p) && (forall|j: int|
                0 <= j < p ==> !at(line, comment, j)) && solids(plain_line(line, comment)) == solids(
                if count_from(line.take(p), seq!['"'], 0) % 2 == 0 {
                    line.take(p)
                } else {
                    line
                },
            ),
            None => solids(plain_line(line, comment)) == solids(line) && forall|j: int|
                0 <= j ==> !at(line, comment, j),
        },
{
    reveal_strlit("\"");
    assert("\""@ =~= seq!['"']);
    find_from_facts(line, comment, 0);
    let code = match find(line, comment) {
        Some(p) => if count_from(line.take(p), "\""@, 0) % 2 == 0 {
            line.take(p)
        } else {
            line
        },
        None => line,
    };
    words_on(code, 0);
    assert(code.skip(0) =~= code);
}

/// What counts as the code of several lines is the code of each of them that has any.
pub proof fn code_is_that_of_the_lines(
    ls: Seq<Seq<char>>,
    comment: Seq<char>,
    from: int,
    to: int,
    x: Seq<char>,
)
    requires
        0 <= from <= to <= ls.len(),
    ensures
        plain_lines(ls, comment, from, to).contains(x) <==> x.len() > 0 && exists|i: int|
            from <= i < to && plain_line(#[trigger] ls[i], comment) == x,
{
    let f = plain_at(ls, comment, from);
    gather_contains(to - from, f, x);
    if plain_lines(ls, comment, from, to).contains(x) {
        let i = choose|i: int| 0 <= i < to - from && (#[trigger] f(i)).contains(x);
        let found = f(i);
        let k = choose|k: int| 0 <= k < found.len() && found[k] == x;
        assert(plain_line(ls[from + i], comment) == x);
    }
    if x.len() > 0 && exists|i: int| from <= i < to && plain_line(#[trigger] ls[i], comment) == x {
        let i = choose|i: int| from <= i < to && plain_line(#[trigger] ls[i], comment) == x;
        assert(f(i - from)[0] == x);
        assert(f(i - from).contains(x));
    }
}

proof fn braces_upto(s: Seq<char>, n: int)
    requires
        0 <= n <= s.len(),
    ensures
        depth_upto(s, n) == s.take(n).filter(|c: char| c == '{').len() - s.take(n).filter(
            |c: char| c == '}',
        ).len(),
    decreases n,
{
    reveal(Seq::filter);
    if n > 0 {
        braces_upto(s, n - 1);
        let t = s.take(n);
        assert(t.drop_last() =~= s.take(n - 1));
        assert(t.last() == s[n - 1]);
    }
}

/// A line leads as much deeper as its code holds more opening than closing braces.
pub proof fn lines_deepen_by_braces(line: Seq<char>)
    ensures
        deepens(line) == code_of(line).filter(|c: char| c == '{').len() - code_of(line).filter(
            |c: char| c == '}',
        ).len(),
        opens(line) <==> exists|i: int|
            0 <= i < code_of(line).len() && #[trigger] code_of(line)[i] == '{',
{
    let s = code_of(line);
    braces_upto(s, s.len() as int);
    assert(s.take(s.len() as int) =~= s);
    if s.contains('{') {
        let i = choose|i: int| 0 <= i < s.len() && s[i] == '{';
        assert(s[i] == '{');
    }
}

/// A function is listed where its code has at least so many lines, under its name and on its line.
pub proof fn long_functions_are_listed(
    file: Seq<char>,
    name: Seq<char>,
    start: int,
    body: Seq<Seq<char>>,
    least: int,
)
    requires
        0 <= start < u32::MAX,
        body.len() <= usize::MAX,
    ensures
        body.len() < least ==> long_enough(file, name, start, body, least).len() == 0,
        body.len() >= least ==> {
            let fs = long_enough(file, name, start, body, least);
            &&& fs.len() == 1
            &&& fs[0].file == file
            &&& fs[0].name == name
            &&& fs[0].line == start + 1
            &&& fs[0].lines == body.len()
        },
{
}

} // verus!
