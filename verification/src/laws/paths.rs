//! What the parts of a path are.
use vstd::prelude::*;

use crate::laws::forgotten::last_is_the_end;
use crate::moves::extension_of;
use crate::paths::{component, components_of};
use crate::text::{
    at, back_from, back_from_bounds, gather, gather_contains, in_class, parts, parts_nonempty,
    rfind, rfind_from_facts, trimmed_end, white, Class,
};

verus! {

/// The components of a path are its parts between slashes, but for empty ones and for dots behind the
/// first; a slash at the beginning is a component of its own.
pub proof fn components_stand_between_slashes(path: Seq<char>, x: Seq<char>)
    requires
        x.len() > 0,
        x != seq!['.'],
        x != seq!['/'],
    ensures
        components_of(path).contains(x) <==> parts(path, '/').contains(x),
{
    reveal_strlit("/");
    reveal_strlit(".");
    assert("/"@ =~= seq!['/']);
    assert("."@ =~= seq!['.']);
    let ps = parts(path, '/');
    let f = component(ps);
    let n = ps.len() as int;
    gather_contains(n, f, x);
    if components_of(path).contains(x) {
        let i = choose|i: int| 0 <= i < n && (#[trigger] f(i)).contains(x);
        let found = f(i);
        let k = choose|k: int| 0 <= k < found.len() && found[k] == x;
        assert(ps[i] == x);
    }
    if ps.contains(x) {
        let i = choose|i: int| 0 <= i < n && ps[i] == x;
        assert(f(i)[0] == x);
        assert(f(i).contains(x));
    }
}

proof fn last_component(path: Seq<char>, base: Seq<char>)
    requires
        parts(path, '/').last() == base,
        base.len() > 0,
        base != "."@,
    ensures
        components_of(path).len() > 0,
        components_of(path).last() == base,
{
    let ps = parts(path, '/');
    parts_nonempty(path, '/', 0);
    let f = component(ps);
    let n = ps.len() as int;
    assert(f(n - 1) == seq![base]);
    assert(gather(n, f) == gather(n - 1, f) + f(n - 1));
    assert(gather(n, f).last() == base);
}

proof fn last_part(path: Seq<char>, k: int)
    requires
        0 <= k <= path.len(),
        k > 0 ==> path[k - 1] == '/',
        forall|j: int| k <= j < path.len() ==> #[trigger] path[j] != '/',
    ensures
        parts(path, '/').last() == path.skip(k),
{
    last_is_the_end(path, 0);
    let l = parts(path, '/').last();
    let m = choose|m: int|
        0 <= m <= path.len() && #[trigger] path.skip(m) == l && (m > 0 ==> path[m - 1] == '/');
    if m > k {
        assert(path[m - 1] != '/');
    } else if m < k {
        crate::laws::lines::parts_stand_between(path, '/', l);
        assert(parts(path, '/').contains(l)) by {
            parts_nonempty(path, '/', 0);
            let ps = parts(path, '/');
            assert(ps[ps.len() - 1] == l);
        }
        let (a, b) = choose|a: int, b: int| #[trigger]
            crate::laws::lines::piece_at(path, '/', l, a, b);
        assert(crate::laws::lines::piece_at(path, '/', l, a, b));
        let y = path.subrange(a, b);
        let i = k - 1 - m;
        assert(l == y);
        assert(y.len() == b - a);
        assert(path.skip(m).len() == path.len() - m);
        assert(path.skip(m)[i] == path[k - 1]);
        assert(y[i] == path[a + i]);
        assert(path[a + i] != '/');
    }
}

/// The extension of a file is what comes behind the last dot of its name, where something comes before
/// that dot; a file whose name begins with its only dot, or has none, has no extension. `k` is where
/// the name begins, behind the last slash of the path if there is any.
pub proof fn extensions_follow_the_last_dot(path: Seq<char>, k: int, d: int)
    requires
        0 <= k < path.len(),
        k > 0 ==> path[k - 1] == '/',
        forall|j: int| k <= j < path.len() ==> #[trigger] path[j] != '/',
        path.skip(k) != seq!['.'],
        path.skip(k) != seq!['.', '.'],
    ensures
        k < d < path.len() && path[d] == '.' && (forall|j: int|
            d < j < path.len() ==> #[trigger] path[j] != '.') ==> extension_of(path) == Some(
            path.skip(d + 1),
        ),
        (forall|j: int| k < j < path.len() ==> #[trigger] path[j] != '.') ==> extension_of(path) is None,
{
    reveal_strlit(".");
    reveal_strlit("..");
    assert("."@ =~= seq!['.']);
    assert(".."@ =~= seq!['.', '.']);
    let base = path.skip(k);
    last_part(path, k);
    last_component(path, base);
    let n = base.len() as int;
    rfind_from_facts(base, "."@, n - 1);
    assert forall|j: int| 0 <= j < n implies (base[j] == '.' <==> #[trigger] at(base, "."@, j)) by {
        assert(base.subrange(j, j + 1)[0] == base[j]);
        if base[j] == '.' {
            assert(base.subrange(j, j + 1) =~= "."@);
        }
    }
    if k < d < path.len() && path[d] == '.' && (forall|j: int|
        d < j < path.len() ==> #[trigger] path[j] != '.') {
        assert(base[d - k] == path[d]);
        assert(at(base, "."@, d - k));
        let i = rfind(base, "."@)->0;
        if i < d - k {
            assert(!at(base, "."@, d - k));
        } else if d - k < i {
            assert(base[i] == path[k + i]);
        }
        assert(base.skip(i + 1) =~= path.skip(d + 1));
        assert(base.take(i).len() > 0);
    }
    if forall|j: int| k < j < path.len() ==> #[trigger] path[j] != '.' {
        match rfind(base, "."@) {
            Some(i) => {
                assert(base[i] == path[k + i]);
                assert(i == 0);
                assert(base.take(i).len() == 0);
            },
            None => {},
        }
    }
}

/// What is left of a text without the whitespace at its end is its beginning, up to the last character
/// that is none.
pub proof fn ends_without_whitespace(s: Seq<char>)
    ensures
        trimmed_end(s).len() <= s.len(),
        trimmed_end(s) == s.take(trimmed_end(s).len() as int),
        trimmed_end(s).len() > 0 ==> !white(trimmed_end(s).last()),
        forall|j: int| trimmed_end(s).len() <= j < s.len() ==> white(#[trigger] s[j]),
{
    back_from_bounds(s, Class::White, s.len() as int);
    let e = back_from(s, Class::White, s.len() as int);
    assert(trimmed_end(s) == s.take(e));
    assert forall|j: int| e <= j < s.len() implies white(#[trigger] s[j]) by {
        assert(in_class(Class::White, s[j]));
    }
    if e > 0 {
        assert(!in_class(Class::White, s[e - 1]));
    }
}

} // verus!
