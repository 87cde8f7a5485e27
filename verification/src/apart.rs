//! Telling written values apart: no value that is written in JSON begins another one, so that what
//! was written can be told from the text alone.
use vstd::prelude::*;

use crate::json::{
    escape, escaping, hex_digit, json_bool, json_list, json_maybe, json_string, json_strings,
};
use crate::text::{dec, dec_int, digit, gather, joined, joined_upto};

verus! {

/// Whether values can be told apart by how they are written, whatever stands behind them.
pub open spec fn apart<T>(e: spec_fn(T) -> Seq<char>) -> bool {
    forall|x: T, y: T, s: Seq<char>, t: Seq<char>|
        #![trigger e(x) + s, e(y) + t]
        e(x) + s == e(y) + t ==> x == y && s == t
}

// ── pieces of text ─────────────────────────────────────────────────────────────────────

/// Joining texts is associative.
pub proof fn regroup(a: Seq<char>, b: Seq<char>, c: Seq<char>)
    ensures
        (a + b) + c == a + (b + c),
{
    assert((a + b) + c =~= a + (b + c));
}

/// What stands behind the same text is the same.
pub proof fn strip_same(a: Seq<char>, s: Seq<char>, t: Seq<char>)
    requires
        a + s == a + t,
    ensures
        s == t,
{
    assert(s =~= (a + s).skip(a.len() as int));
    assert(t =~= (a + t).skip(a.len() as int));
}

/// The first `n` pieces, one behind the other.
pub open spec fn strung(ps: Seq<Seq<char>>, n: int) -> Seq<char>
    decreases n,
{
    if n <= 1 {
        ps[0]
    } else {
        strung(ps, n - 1) + ps[n - 1]
    }
}

/// The pieces from position `i` on, and `s` behind them.
pub open spec fn rest_from(ps: Seq<Seq<char>>, i: int, s: Seq<char>) -> Seq<char>
    decreases ps.len() - i,
{
    if i >= ps.len() {
        s
    } else {
        ps[i] + rest_from(ps, i + 1, s)
    }
}

proof fn strung_upto(ps: Seq<Seq<char>>, n: int, s: Seq<char>)
    requires
        1 <= n <= ps.len(),
    ensures
        strung(ps, n) + rest_from(ps, n, s) == rest_from(ps, 0, s),
    decreases n,
{
    if n > 1 {
        strung_upto(ps, n - 1, s);
        regroup(strung(ps, n - 1), ps[n - 1], rest_from(ps, n, s));
    }
}

/// Pieces can be taken from the front: what they make up together with what follows begins with the
/// first of them.
pub proof fn strung_from_front(ps: Seq<Seq<char>>, s: Seq<char>)
    requires
        ps.len() > 0,
    ensures
        strung(ps, ps.len() as int) + s == rest_from(ps, 0, s),
{
    strung_upto(ps, ps.len() as int, s);
}

// ── strings ────────────────────────────────────────────────────────────────────────────

proof fn hex_digit_apart(a: int, b: int)
    requires
        0 <= a < 16,
        0 <= b < 16,
        hex_digit(a) == hex_digit(b),
    ensures
        a == b,
{
}

proof fn same_code(x: char, y: char)
    requires
        x as u32 == y as u32,
    ensures
        x == y,
{
    vstd::utf8::char_is_scalar(x);
    vstd::utf8::char_is_scalar(y);
}

proof fn escape_apart(c: char, d: char, s: Seq<char>, t: Seq<char>)
    requires
        escape(c) + s == escape(d) + t,
    ensures
        c == d,
        s == t,
{
    let x = escape(c) + s;
    let y = escape(d) + t;
    assert(x[0] == escape(c)[0]);
    assert(y[0] == escape(d)[0]);
    if escape(c).len() > 1 && escape(d).len() > 1 {
        assert(x[1] == escape(c)[1]);
        assert(y[1] == escape(d)[1]);
        if escape(c).len() == 6 && escape(d).len() == 6 {
            assert(x[4] == escape(c)[4] && x[5] == escape(c)[5]);
            assert(y[4] == escape(d)[4] && y[5] == escape(d)[5]);
            let m = c as u32 as int;
            let n = d as u32 as int;
            hex_digit_apart(m / 16, n / 16);
            hex_digit_apart(m % 16, n % 16);
            assert(m == n);
            same_code(c, d);
        } else if c as u32 == d as u32 {
            same_code(c, d);
        }
    }
    assert(c == d);
    strip_same(escape(c), s, t);
}

/// An escaped text with its closing quote, read from the front.
spec fn written(a: Seq<char>) -> Seq<char>
    decreases a.len(),
{
    if a.len() == 0 {
        seq!['"']
    } else {
        escape(a[0]) + written(a.skip(1))
    }
}

proof fn escaping_front(a: Seq<char>, n: int)
    requires
        0 < n <= a.len(),
    ensures
        gather(n, escaping(a)) == escape(a[0]) + gather(n - 1, escaping(a.skip(1))),
    decreases n,
{
    if n == 1 {
        assert(gather(0, escaping(a)) =~= Seq::<char>::empty());
        assert(gather(1, escaping(a)) =~= escape(a[0]));
        assert(gather(0, escaping(a.skip(1))) =~= Seq::<char>::empty());
        assert(escape(a[0]) + Seq::<char>::empty() =~= escape(a[0]));
    } else {
        escaping_front(a, n - 1);
        assert(a.skip(1)[n - 2] == a[n - 1]);
        regroup(
            escape(a[0]),
            gather(n - 2, escaping(a.skip(1))),
            escape(a[n - 1]),
        );
    }
}

proof fn written_is_escaped(a: Seq<char>)
    ensures
        gather(a.len() as int, escaping(a)) + seq!['"'] == written(a),
    decreases a.len(),
{
    if a.len() == 0 {
        assert(gather(0, escaping(a)) + seq!['"'] =~= seq!['"']);
    } else {
        escaping_front(a, a.len() as int);
        written_is_escaped(a.skip(1));
        regroup(escape(a[0]), gather(a.len() - 1, escaping(a.skip(1))), seq!['"']);
    }
}

proof fn written_apart(a: Seq<char>, b: Seq<char>, s: Seq<char>, t: Seq<char>)
    requires
        written(a) + s == written(b) + t,
    ensures
        a == b,
        s == t,
    decreases a.len(),
{
    let x = written(a) + s;
    let y = written(b) + t;
    if a.len() == 0 && b.len() == 0 {
        assert(a =~= b);
        strip_same(seq!['"'], s, t);
    } else if a.len() == 0 {
        assert(x[0] == '"');
        assert(y[0] == escape(b[0])[0]);
    } else if b.len() == 0 {
        assert(y[0] == '"');
        assert(x[0] == escape(a[0])[0]);
    } else {
        regroup(escape(a[0]), written(a.skip(1)), s);
        regroup(escape(b[0]), written(b.skip(1)), t);
        escape_apart(a[0], b[0], written(a.skip(1)) + s, written(b.skip(1)) + t);
        written_apart(a.skip(1), b.skip(1), s, t);
        assert(a =~= seq![a[0]] + a.skip(1));
        assert(b =~= seq![b[0]] + b.skip(1));
    }
}

/// Strings can be told apart by how they are written in JSON.
pub proof fn string_apart(a: Seq<char>, b: Seq<char>, s: Seq<char>, t: Seq<char>)
    requires
        json_string(a) + s == json_string(b) + t,
    ensures
        a == b,
        s == t,
{
    string_is_written(a);
    string_is_written(b);
    regroup(seq!['"'], written(a), s);
    regroup(seq!['"'], written(b), t);
    strip_same(seq!['"'], written(a) + s, written(b) + t);
    written_apart(a, b, s, t);
}

proof fn string_is_written(a: Seq<char>)
    ensures
        json_string(a) == seq!['"'] + written(a),
{
    written_is_escaped(a);
    regroup(seq!['"'], gather(a.len() as int, escaping(a)), seq!['"']);
}

/// A string begins with a quote.
pub proof fn string_begins(a: Seq<char>)
    ensures
        json_string(a).len() > 0,
        json_string(a)[0] == '"',
{
}

/// Truth values can be told apart by how they are written in JSON.
pub proof fn bool_apart(a: bool, b: bool, s: Seq<char>, t: Seq<char>)
    requires
        json_bool(a) + s == json_bool(b) + t,
    ensures
        a == b,
        s == t,
{
    reveal_strlit("true");
    reveal_strlit("false");
    let x = json_bool(a) + s;
    let y = json_bool(b) + t;
    assert(x[0] == json_bool(a)[0]);
    assert(y[0] == json_bool(b)[0]);
    strip_same(json_bool(a), s, t);
}

/// Strings that may be missing can be told apart by how they are written in JSON.
pub proof fn maybe_apart(
    a: Option<Seq<char>>,
    b: Option<Seq<char>>,
    s: Seq<char>,
    t: Seq<char>,
)
    requires
        json_maybe(a) + s == json_maybe(b) + t,
    ensures
        a == b,
        s == t,
{
    reveal_strlit("null");
    let x = json_maybe(a) + s;
    let y = json_maybe(b) + t;
    assert(x[0] == json_maybe(a)[0]);
    assert(y[0] == json_maybe(b)[0]);
    match (a, b) {
        (Some(p), Some(q)) => {
            string_apart(p, q, s, t);
        },
        (None, None) => {
            strip_same("null"@, s, t);
        },
        (Some(p), None) => {
            string_begins(p);
        },
        (None, Some(q)) => {
            string_begins(q);
        },
    }
}

// ── lists ──────────────────────────────────────────────────────────────────────────────

/// Texts, each with a comma before it.
spec fn behind_commas(v: Seq<Seq<char>>) -> Seq<char>
    decreases v.len(),
{
    if v.len() == 0 {
        Seq::empty()
    } else {
        ","@ + (v[0] + behind_commas(v.skip(1)))
    }
}

proof fn one_more_behind(v: Seq<Seq<char>>, x: Seq<char>)
    ensures
        behind_commas(v.push(x)) == behind_commas(v) + (","@ + x),
    decreases v.len(),
{
    if v.len() == 0 {
        assert(v.push(x).skip(1) =~= Seq::<Seq<char>>::empty());
        assert(x + Seq::<char>::empty() =~= x);
        assert(Seq::<char>::empty() + (","@ + x) =~= ","@ + x);
        assert(behind_commas(v.push(x).skip(1)) == Seq::<char>::empty());
    } else {
        assert(v.push(x).skip(1) =~= v.skip(1).push(x));
        one_more_behind(v.skip(1), x);
        let r = behind_commas(v.skip(1));
        let e = ","@ + x;
        regroup(v[0], r, e);
        regroup(","@, v[0] + r, e);
    }
}

proof fn joined_agrees(v: Seq<Seq<char>>, w: Seq<Seq<char>>, sep: Seq<char>, n: int)
    requires
        0 <= n <= v.len(),
        n <= w.len(),
        forall|i: int| 0 <= i < n ==> v[i] == w[i],
    ensures
        joined_upto(v, sep, n) == joined_upto(w, sep, n),
    decreases n,
{
    if n > 1 {
        joined_agrees(v, w, sep, n - 1);
    }
}

proof fn joined_front(v: Seq<Seq<char>>)
    requires
        v.len() > 0,
    ensures
        joined(v, ","@) == v[0] + behind_commas(v.skip(1)),
    decreases v.len(),
{
    if v.len() == 1 {
        assert(v.skip(1) =~= Seq::<Seq<char>>::empty());
        assert(v[0] + Seq::<char>::empty() =~= v[0]);
    } else {
        let u = v.drop_last();
        let x = v.last();
        joined_front(u);
        joined_agrees(v, u, ","@, v.len() - 1);
        assert(v.skip(1) =~= u.skip(1).push(x));
        one_more_behind(u.skip(1), x);
        let r = behind_commas(u.skip(1));
        regroup(u[0], r, ","@);
        regroup(u[0], r + ","@, x);
        regroup(r, ","@, x);
    }
}

proof fn behind_apart<T>(
    e: spec_fn(T) -> Seq<char>,
    xs: Seq<T>,
    ys: Seq<T>,
    close: char,
    s: Seq<char>,
    t: Seq<char>,
)
    requires
        apart(e),
        close != ',',
        behind_commas(xs.map_values(e)) + (seq![close] + s) == behind_commas(ys.map_values(e)) + (
        seq![close] + t),
    ensures
        xs == ys,
        s == t,
    decreases xs.len(),
{
    reveal_strlit(",");
    let v = xs.map_values(e);
    let w = ys.map_values(e);
    let cs = seq![close] + s;
    let ct = seq![close] + t;
    let x = behind_commas(v) + cs;
    let y = behind_commas(w) + ct;
    if xs.len() == 0 && ys.len() == 0 {
        assert(xs =~= ys);
        assert(x =~= cs);
        assert(y =~= ct);
        strip_same(seq![close], s, t);
    } else if xs.len() == 0 {
        assert(x =~= cs);
        assert(x[0] == close);
        assert(y[0] == ',');
    } else if ys.len() == 0 {
        assert(y =~= ct);
        assert(y[0] == close);
        assert(x[0] == ',');
    } else {
        assert(v.skip(1) =~= xs.skip(1).map_values(e));
        assert(w.skip(1) =~= ys.skip(1).map_values(e));
        let rv = behind_commas(v.skip(1));
        let rw = behind_commas(w.skip(1));
        regroup(","@, v[0] + rv, cs);
        regroup(","@, w[0] + rw, ct);
        strip_same(","@, (v[0] + rv) + cs, (w[0] + rw) + ct);
        regroup(v[0], rv, cs);
        regroup(w[0], rw, ct);
        assert(e(xs[0]) + (rv + cs) == e(ys[0]) + (rw + ct));
        behind_apart(e, xs.skip(1), ys.skip(1), close, s, t);
        assert(xs =~= seq![xs[0]] + xs.skip(1));
        assert(ys =~= seq![ys[0]] + ys.skip(1));
    }
}

/// Lists of values that can be told apart can be told apart, where no value begins with the
/// bracket that closes the list.
pub proof fn items_apart<T>(
    e: spec_fn(T) -> Seq<char>,
    xs: Seq<T>,
    ys: Seq<T>,
    close: char,
    s: Seq<char>,
    t: Seq<char>,
)
    requires
        apart(e),
        close != ',',
        forall|x: T| (#[trigger] e(x)).len() > 0 && e(x)[0] != close,
        joined(xs.map_values(e), ","@) + (seq![close] + s) == joined(ys.map_values(e), ","@) + (
        seq![close] + t),
    ensures
        xs == ys,
        s == t,
{
    let v = xs.map_values(e);
    let w = ys.map_values(e);
    let cs = seq![close] + s;
    let ct = seq![close] + t;
    let x = joined(v, ","@) + cs;
    let y = joined(w, ","@) + ct;
    if xs.len() == 0 && ys.len() == 0 {
        assert(xs =~= ys);
        assert(x =~= cs);
        assert(y =~= ct);
        strip_same(seq![close], s, t);
    } else if xs.len() == 0 {
        assert(x =~= cs);
        assert(x[0] == close);
        joined_front(w);
        assert(y[0] == e(ys[0])[0]);
    } else if ys.len() == 0 {
        assert(y =~= ct);
        assert(y[0] == close);
        joined_front(v);
        assert(x[0] == e(xs[0])[0]);
    } else {
        joined_front(v);
        joined_front(w);
        let rv = behind_commas(v.skip(1));
        let rw = behind_commas(w.skip(1));
        regroup(v[0], rv, cs);
        regroup(w[0], rw, ct);
        assert(e(xs[0]) + (rv + cs) == e(ys[0]) + (rw + ct));
        assert(v.skip(1) =~= xs.skip(1).map_values(e));
        assert(w.skip(1) =~= ys.skip(1).map_values(e));
        behind_apart(e, xs.skip(1), ys.skip(1), close, s, t);
        assert(xs =~= seq![xs[0]] + xs.skip(1));
        assert(ys =~= seq![ys[0]] + ys.skip(1));
    }
}

/// Lists in JSON of values that can be told apart can be told apart.
pub proof fn list_apart<T>(
    e: spec_fn(T) -> Seq<char>,
    xs: Seq<T>,
    ys: Seq<T>,
    s: Seq<char>,
    t: Seq<char>,
)
    requires
        apart(e),
        forall|x: T| (#[trigger] e(x)).len() > 0 && e(x)[0] != ']',
        json_list(xs.map_values(e)) + s == json_list(ys.map_values(e)) + t,
    ensures
        xs == ys,
        s == t,
{
    reveal_strlit("]");
    assert("]"@ =~= seq![']']);
    let v = joined(xs.map_values(e), ","@);
    let w = joined(ys.map_values(e), ","@);
    regroup("["@ + v, "]"@, s);
    regroup("["@ + w, "]"@, t);
    regroup("["@, v, "]"@ + s);
    regroup("["@, w, "]"@ + t);
    strip_same("["@, v + ("]"@ + s), w + ("]"@ + t));
    items_apart(e, xs, ys, ']', s, t);
}

/// How a string is written.
pub open spec fn string_code() -> spec_fn(Seq<char>) -> Seq<char> {
    |s: Seq<char>| json_string(s)
}

/// Lists of strings can be told apart by how they are written in JSON.
pub proof fn strings_apart(
    a: Seq<Seq<char>>,
    b: Seq<Seq<char>>,
    s: Seq<char>,
    t: Seq<char>,
)
    requires
        json_strings(a) + s == json_strings(b) + t,
    ensures
        a == b,
        s == t,
{
    let e = string_code();
    assert(a.map_values(|s: Seq<char>| json_string(s)) =~= a.map_values(e));
    assert(b.map_values(|s: Seq<char>| json_string(s)) =~= b.map_values(e));
    assert forall|x: Seq<char>, y: Seq<char>, p: Seq<char>, q: Seq<char>|
        #![trigger e(x) + p, e(y) + q]
        e(x) + p == e(y) + q implies x == y && p == q by {
        string_apart(x, y, p, q);
    }
    list_apart(e, a, b, s, t);
}

// ── numbers ────────────────────────────────────────────────────────────────────────────

/// What stands before the first bracket is the same in the same text.
proof fn before_close(a: Seq<char>, b: Seq<char>, close: char, s: Seq<char>, t: Seq<char>)
    requires
        !a.contains(close),
        !b.contains(close),
        a + (seq![close] + s) == b + (seq![close] + t),
    ensures
        a == b,
        s == t,
{
    let x = a + (seq![close] + s);
    let y = b + (seq![close] + t);
    assert(x[a.len() as int] == close);
    assert(y[b.len() as int] == close);
    if a.len() < b.len() {
        assert(y[a.len() as int] == b[a.len() as int]);
        assert(b.contains(close));
    } else if b.len() < a.len() {
        assert(x[b.len() as int] == a[b.len() as int]);
        assert(a.contains(close));
    }
    assert(a =~= x.take(a.len() as int));
    assert(b =~= y.take(b.len() as int));
    strip_same(a, seq![close] + s, seq![close] + t);
    strip_same(seq![close], s, t);
}

proof fn dec_facts(n: nat)
    ensures
        dec(n).len() > 0,
        forall|i: int| 0 <= i < dec(n).len() ==> '0' <= #[trigger] dec(n)[i] <= '9',
    decreases n,
{
    if n >= 10 {
        dec_facts(n / 10);
    }
}

proof fn dec_apart(m: nat, n: nat)
    requires
        dec(m) == dec(n),
    ensures
        m == n,
    decreases m,
{
    dec_facts(m / 10);
    dec_facts(n / 10);
    if m < 10 && n < 10 {
        assert(dec(m)[0] == digit(m as int));
        assert(dec(n)[0] == digit(n as int));
    } else if m < 10 {
        assert(dec(n).len() == dec(n / 10).len() + 1);
    } else if n < 10 {
        assert(dec(m).len() == dec(m / 10).len() + 1);
    } else {
        assert(dec(m).drop_last() =~= dec(m / 10));
        assert(dec(n).drop_last() =~= dec(n / 10));
        assert(dec(m).last() == digit((m % 10) as int));
        assert(dec(n).last() == digit((n % 10) as int));
        dec_apart(m / 10, n / 10);
    }
}

/// Integers can be told apart by how they are written, where a bracket stands behind them.
pub proof fn integer_apart(m: int, n: int, s: Seq<char>, t: Seq<char>)
    requires
        dec_int(m) + (seq!['}'] + s) == dec_int(n) + (seq!['}'] + t),
    ensures
        m == n,
        s == t,
{
    let a = if m < 0 {
        -m
    } else {
        m
    };
    let b = if n < 0 {
        -n
    } else {
        n
    };
    dec_facts(a as nat);
    dec_facts(b as nat);
    plain_number(m);
    plain_number(n);
    before_close(dec_int(m), dec_int(n), '}', s, t);
    let x = dec_int(m);
    let y = dec_int(n);
    assert(m < 0 ==> x[0] == '-');
    assert(n < 0 ==> y[0] == '-');
    assert(m >= 0 ==> x[0] == dec(m as nat)[0]);
    assert(n >= 0 ==> y[0] == dec(n as nat)[0]);
    if m < 0 {
        assert(n < 0);
        strip_same(seq!['-'], dec(a as nat), dec(b as nat));
    }
    dec_apart(a as nat, b as nat);
}

proof fn plain_number(m: int)
    ensures
        !dec_int(m).contains('}'),
{
    let a = (if m < 0 {
        -m
    } else {
        m
    }) as nat;
    dec_facts(a);
    if dec_int(m).contains('}') {
        let i = choose|i: int| 0 <= i < dec_int(m).len() && dec_int(m)[i] == '}';
        if m < 0 {
            if i > 0 {
                assert(dec_int(m)[i] == dec(a)[i - 1]);
            }
        } else {
            assert(dec_int(m)[i] == dec(a)[i]);
        }
    }
}

} // verus!
