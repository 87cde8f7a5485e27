//! How questions are read.
use vstd::prelude::*;

use crate::facts::{digits_of, number_in, question_fault, same_word, value_upto, BqlError};
use crate::text::{
    dec, digit, in_class, lower, runs_from, span_from, span_from_bounds, white, words, Class,
};

verus! {

// ── words ──────────────────────────────────────────────────────────────────────────────

/// Whether a text is a word: at least one character, and no whitespace.
pub open spec fn word(s: Seq<char>) -> bool {
    s.len() > 0 && forall|i: int| 0 <= i < s.len() ==> !white(#[trigger] s[i])
}

proof fn span_behind(a: Seq<char>, b: Seq<char>, k: Class, i: int)
    requires
        0 <= i <= b.len(),
    ensures
        span_from(a + b, k, a.len() + i) == a.len() + span_from(b, k, i),
    decreases b.len() - i,
{
    if i < b.len() {
        assert((a + b)[a.len() + i] == b[i]);
        if in_class(k, b[i]) {
            span_behind(a, b, k, i + 1);
        }
    }
}

proof fn runs_behind(a: Seq<char>, b: Seq<char>, i: int)
    requires
        0 <= i <= b.len(),
    ensures
        runs_from(a + b, Class::Solid, a.len() + i) == runs_from(b, Class::Solid, i),
    decreases b.len() - i,
{
    let s = a + b;
    if i < b.len() {
        assert(s[a.len() + i] == b[i]);
        if in_class(Class::Solid, b[i]) {
            let j = span_from(b, Class::Solid, i);
            span_from_bounds(b, Class::Solid, i);
            span_from_bounds(b, Class::Solid, i + 1);
            span_behind(a, b, Class::Solid, i);
            assert(s.subrange(a.len() + i, a.len() + j) =~= b.subrange(i, j));
            runs_behind(a, b, j);
        } else {
            runs_behind(a, b, i + 1);
        }
    }
}

proof fn span_over(a: Seq<char>, b: Seq<char>, i: int)
    requires
        word(a),
        b.len() > 0,
        white(b[0]),
        0 <= i <= a.len(),
    ensures
        span_from(a + b, Class::Solid, i) == a.len(),
    decreases a.len() - i,
{
    let s = a + b;
    if i < a.len() {
        assert(s[i] == a[i]);
        span_over(a, b, i + 1);
    } else {
        assert(s[i] == b[0]);
    }
}

/// The words of a text are what stands between whitespace: a word, whitespace and a text have that
/// word and the words of the text; whitespace at the beginning does not count; and a word alone is
/// its only word.
pub proof fn words_stand_between_whitespace(a: Seq<char>, c: char, rest: Seq<char>)
    requires
        word(a),
        white(c),
    ensures
        words(a + (seq![c] + rest)) == seq![a] + words(rest),
        words(seq![c] + rest) == words(rest),
        words(a) == seq![a],
        words(Seq::<char>::empty()).len() == 0,
{
    let b = seq![c] + rest;
    let s = a + b;
    let n = a.len() as int;
    assert(b[0] == c);
    assert(!in_class(Class::Solid, b[0]));
    assert(b.skip(1) =~= rest);
    runs_behind(seq![c], rest, 0);
    assert(runs_from(b, Class::Solid, 0) == runs_from(b, Class::Solid, 1));
    span_over(a, b, 0);
    assert(s[0] == a[0]);
    assert(in_class(Class::Solid, s[0]));
    assert(s.subrange(0, n) =~= a);
    runs_behind(a, b, 0);
    assert(runs_from(s, Class::Solid, 0) == seq![a] + runs_from(s, Class::Solid, n));
    span_from_bounds(a, Class::Solid, 0);
    let e = span_from(a, Class::Solid, 0);
    if e < n {
        assert(!white(a[e]));
    }
    assert(a.subrange(0, n) =~= a);
    assert(in_class(Class::Solid, a[0]));
    assert(runs_from(a, Class::Solid, 0) == seq![a] + runs_from(a, Class::Solid, n));
    assert(seq![a] + runs_from(a, Class::Solid, n) =~= seq![a]);
}

// ── numbers ────────────────────────────────────────────────────────────────────────────

proof fn decimal_digits(n: nat)
    ensures
        dec(n).len() > 0,
        forall|i: int| 0 <= i < dec(n).len() ==> '0' <= #[trigger] dec(n)[i] <= '9',
        value_upto(dec(n), dec(n).len() as int) == n,
    decreases n,
{
    let d = dec(n);
    if n < 10 {
        assert(value_upto(d, 0) == 0);
        assert(value_upto(d, 1) == 10 * value_upto(d, 0) + (d[0] as u32 - 48));
    } else {
        let e = dec(n / 10);
        decimal_digits(n / 10);
        let m = e.len() as int;
        assert(d == e.push(digit((n % 10) as int)));
        same_beginning(d, e, m);
        assert(d[m] == digit((n % 10) as int));
        assert(value_upto(d, m + 1) == 10 * value_upto(d, m) + (d[m] as u32 - 48));
        assert forall|i: int| 0 <= i < d.len() implies '0' <= #[trigger] d[i] <= '9' by {
            if i < m {
                assert(d[i] == e[i]);
            }
        }
    }
}

proof fn same_beginning(a: Seq<char>, b: Seq<char>, n: int)
    requires
        0 <= n <= a.len(),
        n <= b.len(),
        forall|i: int| 0 <= i < n ==> #[trigger] a[i] == b[i],
    ensures
        value_upto(a, n) == value_upto(b, n),
    decreases n,
{
    if n > 0 {
        same_beginning(a, b, n - 1);
        assert(a[n - 1] == b[n - 1]);
    }
}

/// A number is read as it is written, with or without a plus sign before it; a text that holds
/// anything but digits behind such a sign, or no digit at all, is no number.
pub proof fn numbers_are_read_as_written(n: nat, s: Seq<char>, i: int)
    ensures
        n <= usize::MAX ==> number_in(dec(n)) == Some(n as int),
        n <= usize::MAX ==> number_in(seq!['+'] + dec(n)) == Some(n as int),
        n > usize::MAX ==> number_in(dec(n)) is None,
        0 <= i < s.len() && !('0' <= s[i] <= '9') && (i > 0 || s[i] != '+') ==> number_in(s) is None,
        s.len() == 0 ==> number_in(s) is None,
        number_in(seq!['+']) is None,
{
    decimal_digits(n);
    let d = dec(n);
    assert(digits_of(d) == d) by {
        assert('0' <= d[0] <= '9');
    }
    let p = seq!['+'] + d;
    assert(p[0] == '+');
    assert(p.skip(1) =~= d);
    if 0 <= i < s.len() && !('0' <= s[i] <= '9') && (i > 0 || s[i] != '+') {
        let e = digits_of(s);
        if s[0] == '+' {
            assert(e[i - 1] == s[i]);
        }
    }
    assert(digits_of(seq!['+']).len() == 0);
}

// ── questions ──────────────────────────────────────────────────────────────────────────

/// Whether two characters are the same, or the same letter in capital and small.
pub open spec fn same_letter(a: char, b: char) -> bool {
    ||| a == b
    ||| 'A' <= a <= 'Z' && b as u32 == a as u32 + 32
    ||| 'A' <= b <= 'Z' && a as u32 == b as u32 + 32
}

proof fn same_letter_is(a: char, b: char)
    ensures
        same_letter(a, b) <==> lower(a) == lower(b),
{
    crate::order::same_code(lower(a), lower(b));
    crate::order::same_code(a, b);
    crate::order::same_code(lower(a), b);
    crate::order::same_code(a, lower(b));
}

/// Two words are the same where they have the same letters, capital or small.
pub proof fn words_ignore_case(a: Seq<char>, b: Seq<char>)
    ensures
        same_word(a, b) <==> a.len() == b.len() && forall|i: int|
            0 <= i < a.len() ==> same_letter(#[trigger] a[i], b[i]),
{
    let x = a.map_values(|c: char| lower(c));
    let y = b.map_values(|c: char| lower(c));
    if same_word(a, b) {
        assert(x.len() == a.len() && y.len() == b.len());
        assert forall|i: int| 0 <= i < a.len() implies same_letter(#[trigger] a[i], b[i]) by {
            assert(x[i] == lower(a[i]) && y[i] == lower(b[i]));
            same_letter_is(a[i], b[i]);
        }
    }
    if a.len() == b.len() && forall|i: int| 0 <= i < a.len() ==> same_letter(#[trigger] a[i], b[i]) {
        assert forall|i: int| 0 <= i < a.len() implies x[i] == y[i] by {
            assert(same_letter(a[i], b[i]));
            same_letter_is(a[i], b[i]);
        }
        assert(x =~= y);
    }
}

/// A question is well put if and only if it has four words, the third of which is `DEPTH`, and the
/// fourth a number from 1 to 64. What is wrong with one that is not is told by the first of these
/// that does not hold.
pub proof fn questions_are_well_put(w: Seq<Seq<char>>)
    ensures
        ({
            let shaped = w.len() == 4 && same_word(w[2], seq!['D', 'E', 'P', 'T', 'H']);
            let n = number_in(w[3]);
            &&& question_fault(w) is None <==> shaped && n is Some && 0 < n->0 < 65
            &&& !shaped ==> question_fault(w) == Some(BqlError::Syntax)
            &&& shaped && n is None ==> question_fault(w) == Some(BqlError::NotInteger)
            &&& shaped && n is Some && !(0 < n->0 < 65) ==> question_fault(w) == Some(
                BqlError::OutOfRange,
            )
        }),
{
    reveal_strlit("DEPTH");
    assert("DEPTH"@ =~= seq!['D', 'E', 'P', 'T', 'H']);
}

} // verus!
