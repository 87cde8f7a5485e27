//! Paths as lists of components: two paths are one where their components are.
use vstd::prelude::*;

use crate::text::{
    cat2, chars, gather, in_class, join, joined, joined_upto, parts, parts_from, put, same,
    span_from, span_from_bounds, split, texts, Class,
};

verus! {

/// The component of a path at a position: the root where the path begins with a separator, and
/// nothing where two separators meet, where one ends the path, or at a dot that does not begin it.
pub open spec fn component(ps: Seq<Seq<char>>) -> spec_fn(int) -> Seq<Seq<char>> {
    |i: int|
        if ps[i].len() == 0 {
            if i == 0 && ps.len() > 1 {
                seq!["/"@]
            } else {
                seq![]
            }
        } else if i > 0 && ps[i] == "."@ {
            seq![]
        } else {
            seq![ps[i]]
        }
}

/// The components of a path.
pub open spec fn components_of(path: Seq<char>) -> Seq<Seq<char>> {
    let ps = parts(path, '/');
    gather(ps.len() as int, component(ps))
}

/// The path of components.
pub open spec fn spelled(c: Seq<Seq<char>>) -> Seq<char> {
    if c.len() > 0 && c[0] == "/"@ {
        "/"@ + joined(c.skip(1), "/"@)
    } else {
        joined(c, "/"@)
    }
}

/// The plain spelling of a path, the one that its components give: `a/b` for `a//b`, `a/./b` and
/// `a/b/`.
pub open spec fn plain(path: Seq<char>) -> Seq<char> {
    spelled(components_of(path))
}

/// The components of a path.
pub fn components(path: &str) -> (r: Vec<String>)
    ensures
        texts(r@) == components_of(path@),
{
    let ps = split(path, '/');
    let ghost all = texts(ps@);
    let mut r: Vec<String> = Vec::new();
    let mut i: usize = 0;
    while i < ps.len()
        invariant
            i <= ps.len(),
            all == texts(ps@),
            texts(r@) =~= gather(i as int, component(all)),
        decreases ps.len() - i,
    {
        let p = &ps[i];
        assert(all[i as int] == p@);
        assert(all.len() == ps@.len());
        if chars(p.as_str()).len() == 0 {
            if i == 0 && ps.len() > 1 {
                put(&mut r, "/".to_owned());
            }
        } else if !(i > 0 && same(p.as_str(), ".")) {
            put(&mut r, p.clone());
        }
        i += 1;
    }
    r
}

/// Writes the path of components.
pub fn write_spelled(c: &Vec<String>) -> (r: String)
    ensures
        r@ == spelled(texts(c@)),
{
    let ghost all = texts(c@);
    if c.len() > 0 && same(c[0].as_str(), "/") {
        assert(all[0] == c@[0]@);
        let mut rest: Vec<String> = Vec::new();
        let mut i: usize = 1;
        while i < c.len()
            invariant
                1 <= i <= c.len(),
                all == texts(c@),
                texts(rest@) =~= all.subrange(1, i as int),
            decreases c.len() - i,
        {
            put(&mut rest, c[i].clone());
            i += 1;
        }
        assert(texts(rest@) =~= all.skip(1));
        cat2("/", join(&rest, "/").as_str())
    } else {
        proof {
            if all.len() > 0 {
                assert(all[0] == c@[0]@);
            }
        }
        join(c, "/")
    }
}

/// Writes the plain spelling of a path.
pub fn write_plain(path: &str) -> (r: String)
    ensures
        r@ == plain(path@),
{
    write_spelled(&components(path))
}

/// Whether two paths are one.
pub fn same_path(a: &str, b: &str) -> (r: bool)
    ensures
        r == (plain(a@) == plain(b@)),
{
    same(write_plain(a).as_str(), write_plain(b).as_str())
}

// ── what the plain spelling keeps ──────────────────────────────────────────────────────

/// Whether a text holds no separator.
spec fn single(s: Seq<char>) -> bool {
    forall|i: int| 0 <= i < s.len() ==> #[trigger] s[i] != '/'
}

proof fn parts_are_single(s: Seq<char>, i: int)
    requires
        0 <= i <= s.len(),
    ensures
        forall|k: int| 0 <= k < parts_from(s, '/', i).len() ==> single(#[trigger] parts_from(s, '/', i)[k]),
    decreases s.len() - i,
{
    let j = span_from(s, Class::Not('/'), i);
    span_from_bounds(s, Class::Not('/'), i);
    let ps = parts_from(s, '/', i);
    if j < s.len() {
        parts_are_single(s, j + 1);
        let head = s.subrange(i, j);
        let rest = parts_from(s, '/', j + 1);
        assert(single(head)) by {
            assert forall|k: int| 0 <= k < head.len() implies #[trigger] head[k] != '/' by {
                assert(in_class(Class::Not('/'), s[i + k]));
            }
        }
        assert forall|k: int| 0 <= k < ps.len() implies single(#[trigger] ps[k]) by {
            if k > 0 {
                assert(ps[k] == rest[k - 1]);
            }
        }
    } else {
        let tail = s.skip(i);
        assert(single(tail)) by {
            assert forall|k: int| 0 <= k < tail.len() implies #[trigger] tail[k] != '/' by {
                assert(in_class(Class::Not('/'), s[i + k]));
            }
        }
    }
}

/// Whether these can be the components of a path.
spec fn well_formed(c: Seq<Seq<char>>) -> bool {
    forall|i: int|
        0 <= i < c.len() ==> {
            &&& (#[trigger] c[i]).len() > 0
            &&& single(c[i]) || (i == 0 && c[i] == "/"@)
            &&& i > 0 ==> c[i] != "."@
        }
}

proof fn components_upto(ps: Seq<Seq<char>>, n: int)
    requires
        0 <= n <= ps.len(),
        forall|k: int| 0 <= k < ps.len() ==> single(#[trigger] ps[k]),
    ensures
        well_formed(gather(n, component(ps))),
        gather(n, component(ps)).len() <= n,
    decreases n,
{
    reveal_strlit("/");
    if n > 0 {
        components_upto(ps, n - 1);
        let g = gather(n - 1, component(ps));
        let f = component(ps);
        let h = gather(n, f);
        assert(single(ps[n - 1]));
        assert forall|i: int| 0 <= i < h.len() implies {
            &&& (#[trigger] h[i]).len() > 0
            &&& single(h[i]) || (i == 0 && h[i] == "/"@)
            &&& i > 0 ==> h[i] != "."@
        } by {
            if i < g.len() {
                assert(h[i] == g[i]);
            } else {
                assert(h[i] == f(n - 1)[0]);
            }
        }
    }
}

/// The components of a path are what components can be.
proof fn components_are_well_formed(path: Seq<char>)
    ensures
        well_formed(components_of(path)),
{
    parts_are_single(path, 0);
    let ps = parts(path, '/');
    components_upto(ps, ps.len() as int);
}

proof fn span_agrees(s: Seq<char>, t: Seq<char>, i: int)
    requires
        0 <= i <= s.len() < t.len(),
        forall|k: int| 0 <= k < s.len() ==> #[trigger] t[k] == s[k],
        t[s.len() as int] == '/',
    ensures
        span_from(t, Class::Not('/'), i) == span_from(s, Class::Not('/'), i),
    decreases s.len() - i,
{
    if i < s.len() {
        assert(t[i] == s[i]);
        if in_class(Class::Not('/'), s[i]) {
            span_agrees(s, t, i + 1);
        }
    }
}

proof fn span_to_end(t: Seq<char>, i: int)
    requires
        0 <= i <= t.len(),
        forall|k: int| i <= k < t.len() ==> #[trigger] t[k] != '/',
    ensures
        span_from(t, Class::Not('/'), i) == t.len(),
    decreases t.len() - i,
{
    if i < t.len() {
        assert(t[i] != '/');
        span_to_end(t, i + 1);
    }
}

/// A separator and a text without one add one part.
proof fn parts_append(s: Seq<char>, x: Seq<char>, i: int)
    requires
        0 <= i <= s.len(),
        single(x),
    ensures
        parts_from(s + "/"@ + x, '/', i) == parts_from(s, '/', i).push(x),
    decreases s.len() - i,
{
    reveal_strlit("/");
    let t = s + "/"@ + x;
    let j = span_from(s, Class::Not('/'), i);
    span_from_bounds(s, Class::Not('/'), i);
    assert(t[s.len() as int] == '/');
    span_agrees(s, t, i);
    if j < s.len() {
        parts_append(s, x, j + 1);
        assert(t.subrange(i, j) =~= s.subrange(i, j));
        assert(parts_from(t, '/', i) =~= parts_from(s, '/', i).push(x));
    } else {
        let k = s.len() as int + 1;
        assert forall|m: int| k <= m < t.len() implies #[trigger] t[m] != '/' by {
            assert(t[m] == x[m - k]);
        }
        span_to_end(t, k);
        assert(t.skip(k) =~= x);
        assert(parts_from(t, '/', k) =~= seq![x]);
        assert(t.subrange(i, s.len() as int) =~= s.skip(i));
        assert(parts_from(t, '/', i) =~= parts_from(s, '/', i).push(x));
    }
}

proof fn parts_of_joined(v: Seq<Seq<char>>, n: int)
    requires
        1 <= n <= v.len(),
        forall|k: int| 0 <= k < v.len() ==> single(#[trigger] v[k]),
    ensures
        parts(joined_upto(v, "/"@, n), '/') == v.take(n),
    decreases n,
{
    assert(single(v[n - 1]));
    if n == 1 {
        let s = v[0];
        assert forall|k: int| 0 <= k < s.len() implies #[trigger] s[k] != '/' by {}
        span_to_end(s, 0);
        assert(s.skip(0) =~= s);
        assert(parts(s, '/') =~= v.take(1));
    } else {
        parts_of_joined(v, n - 1);
        parts_append(joined_upto(v, "/"@, n - 1), v[n - 1], 0);
        assert(v.take(n) =~= v.take(n - 1).push(v[n - 1]));
    }
}

proof fn all_components(ps: Seq<Seq<char>>, c: Seq<Seq<char>>, n: int)
    requires
        0 <= n <= ps.len() == c.len(),
        forall|i: int| 0 <= i < ps.len() ==> (#[trigger] (component(ps))(i)) == seq![c[i]],
    ensures
        gather(n, component(ps)) == c.take(n),
    decreases n,
{
    if n > 0 {
        all_components(ps, c, n - 1);
        assert((component(ps))(n - 1) == seq![c[n - 1]]);
        assert(c.take(n) =~= c.take(n - 1) + seq![c[n - 1]]);
    } else {
        assert(c.take(0) =~= Seq::empty());
    }
}

proof fn joined_from_root(c: Seq<Seq<char>>, n: int)
    requires
        1 <= n <= c.len(),
    ensures
        joined_upto(seq![Seq::<char>::empty()] + c, "/"@, n + 1) == "/"@ + joined_upto(c, "/"@, n),
    decreases n,
{
    let v = seq![Seq::<char>::empty()] + c;
    assert(v[n] == c[n - 1]);
    if n == 1 {
        assert(joined_upto(v, "/"@, 1) =~= Seq::<char>::empty());
        assert(joined_upto(v, "/"@, 2) =~= "/"@ + c[0]);
    } else {
        joined_from_root(c, n - 1);
        assert(joined_upto(v, "/"@, n + 1) =~= "/"@ + joined_upto(c, "/"@, n));
    }
}

/// The path of components has these components.
proof fn spelled_has_components(c: Seq<Seq<char>>)
    requires
        well_formed(c),
    ensures
        components_of(spelled(c)) == c,
{
    reveal_strlit("/");
    reveal_with_fuel(gather, 3);
    let s = spelled(c);
    if c.len() == 0 {
        assert(s =~= Seq::<char>::empty());
        assert(parts(s, '/') =~= seq![s.skip(0)]);
        assert(components_of(s) =~= c);
    } else if c[0] == "/"@ {
        let rest = c.skip(1);
        assert forall|k: int| 0 <= k < rest.len() implies single(#[trigger] rest[k]) by {
            assert(rest[k] == c[k + 1]);
        }
        if rest.len() == 0 {
            assert(s =~= "/"@);
            let none = Seq::<char>::empty();
            parts_append(none, none, 0);
            assert(none + "/"@ + none =~= s);
            assert(parts(s, '/') =~= seq![none, none]) by {
                assert(none.skip(0) =~= none);
            }
            assert(components_of(s) =~= c);
        } else {
            let none = Seq::<char>::empty();
            let v = seq![none] + rest;
            joined_from_root(rest, rest.len() as int);
            assert forall|k: int| 0 <= k < v.len() implies single(#[trigger] v[k]) by {
                if k > 0 {
                    assert(v[k] == rest[k - 1]);
                }
            }
            parts_of_joined(v, v.len() as int);
            assert(v.take(v.len() as int) =~= v);
            assert(parts(s, '/') == v);
            assert forall|i: int| 0 <= i < v.len() implies (#[trigger] (component(v))(i)) == seq![
                c[i],
            ] by {
                if i > 0 {
                    assert(v[i] == c[i]);
                }
            }
            all_components(v, c, v.len() as int);
            assert(c.take(c.len() as int) =~= c);
        }
    } else {
        assert forall|k: int| 0 <= k < c.len() implies single(#[trigger] c[k]) by {}
        parts_of_joined(c, c.len() as int);
        assert(c.take(c.len() as int) =~= c);
        assert forall|i: int| 0 <= i < c.len() implies (#[trigger] (component(c))(i)) == seq![
            c[i],
        ] by {
            assert(c[i].len() > 0);
        }
        all_components(c, c, c.len() as int);
    }
}

/// The plain spelling of a path has the components of the path, and is its own plain spelling. So
/// two paths have one plain spelling if and only if they have the same components.
pub proof fn plain_keeps_components(path: Seq<char>)
    ensures
        components_of(plain(path)) == components_of(path),
        plain(plain(path)) == plain(path),
{
    components_are_well_formed(path);
    spelled_has_components(components_of(path));
}

} // verus!
