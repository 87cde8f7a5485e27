//! How the laws speak of lines of source text.
use vstd::prelude::*;

use crate::text::{
    at, in_class, occurs, parts, parts_from, span_from, span_from_bounds, starts, trimmed_start,
    white, Class,
};

verus! {

/// Whether a line begins with a word, behind nothing but whitespace.
pub open spec fn begins(line: Seq<char>, word: Seq<char>) -> bool {
    exists|w: int| #[trigger] blank_upto(line, w) && at(line, word, w)
}

/// Whether the first `w` characters of a line are whitespace.
pub open spec fn blank_upto(line: Seq<char>, w: int) -> bool {
    0 <= w <= line.len() && forall|j: int| 0 <= j < w ==> white(#[trigger] line[j])
}

/// Whether a text stands in a line before any opening brace.
pub open spec fn stands_before_brace(line: Seq<char>, p: Seq<char>) -> bool {
    exists|k: int| #[trigger]
        at(line, p, k) && forall|j: int| 0 <= j < k + p.len() ==> #[trigger] line[j] != '{'
}

/// Where the whitespace that a line begins with ends.
pub proof fn blanks_end(line: Seq<char>)
    ensures
        blank_upto(line, span_from(line, Class::White, 0)),
        span_from(line, Class::White, 0) < line.len() ==> !white(
            line[span_from(line, Class::White, 0)],
        ),
        trimmed_start(line) == line.skip(span_from(line, Class::White, 0)),
{
    span_from_bounds(line, Class::White, 0);
    assert forall|j: int| 0 <= j < span_from(line, Class::White, 0) implies white(
        #[trigger] line[j],
    ) by {
        assert(in_class(Class::White, line[j]));
    }
}

/// What stands in the rest of a text stands in the text.
pub proof fn at_behind(s: Seq<char>, p: Seq<char>, m: int, k: int)
    requires
        0 <= m <= s.len(),
        0 <= k,
    ensures
        at(s.skip(m), p, k) <==> at(s, p, m + k),
{
    let t = s.skip(m);
    if k + p.len() <= t.len() {
        assert(t.subrange(k, k + p.len()) =~= s.subrange(m + k, m + k + p.len()));
    }
}

/// A line begins with a word if and only if the word comes first once whitespace is taken off.
pub proof fn begins_is_starts(line: Seq<char>, word: Seq<char>)
    requires
        word.len() > 0,
        !white(word[0]),
    ensures
        begins(line, word) <==> starts(trimmed_start(line), word),
{
    let w = span_from(line, Class::White, 0);
    blanks_end(line);
    at_behind(line, word, w, 0);
    if begins(line, word) {
        let v = choose|v: int| #[trigger] blank_upto(line, v) && at(line, word, v);
        assert(line.subrange(v, v + word.len())[0] == line[v]);
        assert(line[v] == word[0]);
        if v < w {
            assert(white(line[v]));
        } else if w < v {
            assert(white(line[w]));
        }
    }
}

/// What a text holds before its first opening brace.
pub proof fn before_brace_facts(t: Seq<char>)
    ensures
        parts(t, '{').len() > 0,
        parts(t, '{')[0].len() <= t.len(),
        parts(t, '{')[0] == t.take(parts(t, '{')[0].len() as int),
        forall|j: int| 0 <= j < parts(t, '{')[0].len() ==> #[trigger] t[j] != '{',
        parts(t, '{')[0].len() < t.len() ==> t[parts(t, '{')[0].len() as int] == '{',
{
    let j = span_from(t, Class::Not('{'), 0);
    span_from_bounds(t, Class::Not('{'), 0);
    crate::text::parts_nonempty(t, '{', 0);
    assert forall|k: int| 0 <= k < j implies #[trigger] t[k] != '{' by {
        assert(in_class(Class::Not('{'), t[k]));
    }
    if j < t.len() {
        assert(parts(t, '{')[0] == t.subrange(0, j));
        assert(t.subrange(0, j) =~= t.take(j));
    } else {
        assert(parts(t, '{')[0] == t.skip(0));
        assert(t.skip(0) =~= t.take(j));
    }
}

/// A text stands before the first brace of what is behind the whitespace of a line if and only if
/// it stands in the line before any brace, where the line does not begin with that text.
pub proof fn before_brace_is_before(line: Seq<char>, p: Seq<char>)
    requires
        p.len() > 1,
        white(p[0]),
        !white(p[1]),
        trimmed_start(line).len() > 0,
        trimmed_start(line)[0] != p[1],
    ensures
        occurs(parts(trimmed_start(line), '{')[0], p) <==> stands_before_brace(line, p),
{
    let w = span_from(line, Class::White, 0);
    let t = trimmed_start(line);
    blanks_end(line);
    before_brace_facts(t);
    let head = parts(t, '{')[0];
    let n = head.len() as int;
    if occurs(head, p) {
        let k = choose|k: int| at(head, p, k);
        assert(head.subrange(k, k + p.len()) =~= t.subrange(k, k + p.len()));
        at_behind(line, p, w, k);
        assert(at(line, p, w + k));
        assert forall|j: int| 0 <= j < w + k + p.len() implies #[trigger] line[j] != '{' by {
            if j < w {
                assert(white(line[j]));
            } else {
                assert(t[j - w] == line[j]);
            }
        }
    }
    if stands_before_brace(line, p) {
        let k = choose|k: int| #[trigger]
            at(line, p, k) && forall|j: int| 0 <= j < k + p.len() ==> #[trigger] line[j] != '{';
        assert(line.subrange(k, k + p.len())[1] == line[k + 1]);
        assert(line[k + 1] == p[1]);
        if k < w {
            if k + 1 < w {
                assert(white(line[k + 1]));
            } else {
                assert(t[0] == line[w]);
            }
        }
        at_behind(line, p, w, k - w);
        assert(at(t, p, k - w));
        if n < k - w + p.len() {
            assert(t[n] == line[n + w]);
        }
        assert(head.subrange(k - w, k - w + p.len()) =~= t.subrange(k - w, k - w + p.len()));
        assert(at(head, p, k - w));
    }
}

/// Whether `x` stands in a text from position `a` up to `b`, between two separators or the ends.
pub open spec fn piece_at(s: Seq<char>, c: char, x: Seq<char>, a: int, b: int) -> bool {
    &&& 0 <= a <= b <= s.len()
    &&& x == s.subrange(a, b)
    &&& a > 0 ==> s[a - 1] == c
    &&& b < s.len() ==> s[b] == c
    &&& forall|j: int| a <= j < b ==> #[trigger] s[j] != c
}

proof fn parts_on(s: Seq<char>, c: char, x: Seq<char>, i: int)
    requires
        0 <= i <= s.len(),
        i > 0 ==> s[i - 1] == c,
    ensures
        parts_from(s, c, i).contains(x) <==> exists|a: int, b: int|
            i <= a && #[trigger] piece_at(s, c, x, a, b),
    decreases s.len() - i,
{
    let j = span_from(s, Class::Not(c), i);
    span_from_bounds(s, Class::Not(c), i);
    assert forall|k: int| i <= k < j implies #[trigger] s[k] != c by {
        assert(in_class(Class::Not(c), s[k]));
    }
    let all = parts_from(s, c, i);
    if j < s.len() {
        assert(!in_class(Class::Not(c), s[j]));
        parts_on(s, c, x, j + 1);
        let rest = parts_from(s, c, j + 1);
        let one = seq![s.subrange(i, j)];
        crate::text::concat_contains(one, rest, x);
        if one.contains(x) {
            let k = choose|k: int| 0 <= k < one.len() && one[k] == x;
            assert(piece_at(s, c, x, i, j));
        }
        if exists|a: int, b: int| i <= a && #[trigger] piece_at(s, c, x, a, b) {
            let (a, b) = choose|a: int, b: int| i <= a && #[trigger] piece_at(s, c, x, a, b);
            if a <= j {
                if a > i {
                    assert(s[a - 1] != c);
                }
                if b < j {
                    assert(s[b] != c);
                }
                if b > j {
                    assert(s[j] != c);
                }
                assert(one[0] == x);
                assert(one.contains(x));
            } else {
                assert(piece_at(s, c, x, a, b) && j + 1 <= a);
            }
        }
    } else {
        assert(all == seq![s.skip(i)]);
        assert(s.skip(i) =~= s.subrange(i, s.len() as int));
        assert(all[0] == s.skip(i));
        if all.contains(x) {
            let k = choose|k: int| 0 <= k < all.len() && all[k] == x;
            assert(piece_at(s, c, x, i, s.len() as int));
        }
        if exists|a: int, b: int| i <= a && #[trigger] piece_at(s, c, x, a, b) {
            let (a, b) = choose|a: int, b: int| i <= a && #[trigger] piece_at(s, c, x, a, b);
            if a > i {
                assert(s[a - 1] != c);
            }
            if b < s.len() {
                assert(s[b] != c);
            }
            assert(all.contains(x));
        }
    }
}

/// The parts of a text are what stands between its separators.
pub proof fn parts_stand_between(s: Seq<char>, c: char, x: Seq<char>)
    ensures
        parts(s, c).contains(x) <==> exists|a: int, b: int| #[trigger] piece_at(s, c, x, a, b),
{
    parts_on(s, c, x, 0);
    if exists|a: int, b: int| #[trigger] piece_at(s, c, x, a, b) {
        let (a, b) = choose|a: int, b: int| #[trigger] piece_at(s, c, x, a, b);
        assert(0 <= a && piece_at(s, c, x, a, b));
    }
}

} // verus!
