//! Orders, sorting, and tables kept in order.
//!
//! Whatever is sorted has a rank, a sequence of numbers; ranks are compared
//! lexicographically. A string ranks by its code points. A path ranks by the code points of its
//! plain spelling with the separator below every other character, so that paths are ordered
//! component by component.
use vstd::prelude::*;

use crate::paths::{plain, plain_keeps_components, write_plain};
use crate::text::{chars, texts};

verus! {

/// Whether `a` comes before `b`, looking from position `i` on.
pub open spec fn before_from(a: Seq<i64>, b: Seq<i64>, i: int) -> bool
    decreases b.len() - i,
{
    if i >= b.len() {
        false
    } else if i >= a.len() {
        true
    } else if a[i] == b[i] {
        before_from(a, b, i + 1)
    } else {
        a[i] < b[i]
    }
}

/// The lexicographic order.
pub open spec fn before(a: Seq<i64>, b: Seq<i64>) -> bool {
    before_from(a, b, 0)
}

/// Of two different ranks one comes before the other.
pub proof fn before_total(a: Seq<i64>, b: Seq<i64>)
    ensures
        before(a, b) || before(b, a) || a == b,
{
    if !before(a, b) && !before(b, a) {
        total_from(a, b, 0);
        assert(a =~= b);
    }
}

proof fn total_from(a: Seq<i64>, b: Seq<i64>, i: int)
    requires
        0 <= i <= a.len(),
        i <= b.len(),
        !before_from(a, b, i),
        !before_from(b, a, i),
    ensures
        a.len() == b.len(),
        forall|j: int| i <= j < a.len() ==> a[j] == b[j],
    decreases b.len() - i,
{
    if i < b.len() && i < a.len() {
        total_from(a, b, i + 1);
    }
}

/// Nothing comes before itself.
pub proof fn before_irreflexive(a: Seq<i64>)
    ensures
        !before(a, a),
{
    irreflexive_from(a, 0);
}

proof fn irreflexive_from(a: Seq<i64>, i: int)
    ensures
        !before_from(a, a, i),
    decreases a.len() - i,
{
    if i < a.len() {
        irreflexive_from(a, i + 1);
    }
}

/// The order is transitive.
pub proof fn before_transitive(a: Seq<i64>, b: Seq<i64>, c: Seq<i64>)
    requires
        before(a, b),
        before(b, c),
    ensures
        before(a, c),
{
    transitive_from(a, b, c, 0);
}

proof fn transitive_from(a: Seq<i64>, b: Seq<i64>, c: Seq<i64>, i: int)
    requires
        before_from(a, b, i),
        before_from(b, c, i),
    ensures
        before_from(a, c, i),
    decreases b.len() - i,
{
    if i < a.len() && i < b.len() && i < c.len() {
        if a[i] == b[i] && b[i] == c[i] {
            transitive_from(a, b, c, i + 1);
        }
    }
}

/// No two ranks come before each other.
pub proof fn before_asymmetric(a: Seq<i64>, b: Seq<i64>)
    requires
        before(a, b),
    ensures
        !before(b, a),
        a != b,
{
    before_irreflexive(a);
    if before(b, a) {
        before_transitive(a, b, a);
    }
}

/// Whether one rank comes before another.
pub fn precedes(a: &Vec<i64>, b: &Vec<i64>) -> (r: bool)
    ensures
        r == before(a@, b@),
{
    let mut i: usize = 0;
    while i < a.len() && i < b.len()
        invariant
            i <= a.len(),
            i <= b.len(),
            before(a@, b@) == before_from(a@, b@, i as int),
        decreases a.len() - i,
    {
        if a[i] != b[i] {
            return a[i] < b[i];
        }
        i += 1;
    }
    i < b.len()
}

/// What has a place in an order.
pub trait Ranked: Sized {
    /// The rank by which values are ordered.
    spec fn rank(&self) -> Seq<i64>;
}

/// What can be sorted.
pub trait Keyed: Ranked {
    /// Computes the rank.
    fn key(&self) -> (r: Vec<i64>)
        ensures
            r@ == self.rank(),
    ;
}

/// Whether a path has a component of just `n` dots at position `i`.
pub open spec fn dots_at(s: Seq<char>, i: int, n: int) -> bool {
    &&& i == 0 || s[i - 1] == '/'
    &&& i + n <= s.len()
    &&& forall|k: int| i <= k < i + n ==> #[trigger] s[k] == '.'
    &&& i + n == s.len() || s[i + n] == '/'
}

/// The rank of the character at a position. In a path the separator comes first, then a component
/// that stands for where one is, then one that stands for the directory above, then all others.
pub open spec fn char_rank(path: bool, s: Seq<char>, i: int) -> i64 {
    if path && s[i] == '/' {
        (-4) as i64
    } else if path && dots_at(s, i, 1) {
        (-3) as i64
    } else if path && dots_at(s, i, 2) {
        (-2) as i64
    } else {
        (s[i] as u32) as i64
    }
}

/// The rank of a string, or of a path.
pub open spec fn name_rank(path: bool, s: Seq<char>) -> Seq<i64> {
    Seq::new(s.len(), |i: int| char_rank(path, s, i))
}

/// A character is known by its code point.
pub proof fn same_code(x: char, y: char)
    ensures
        x as u32 == y as u32 ==> x == y,
{
    vstd::utf8::char_is_scalar(x);
    vstd::utf8::char_is_scalar(y);
}

/// Different names have different ranks.
pub proof fn name_rank_injective(path: bool, a: Seq<char>, b: Seq<char>)
    requires
        name_rank(path, a) == name_rank(path, b),
    ensures
        a == b,
{
    assert(name_rank(path, a).len() == a.len() && name_rank(path, b).len() == b.len());
    assert forall|i: int| 0 <= i < a.len() implies a[i] == b[i] by {
        assert(name_rank(path, a)[i] == char_rank(path, a, i));
        assert(name_rank(path, b)[i] == char_rank(path, b, i));
        let x: char = a[i];
        let y: char = b[i];
        assert(path && dots_at(a, i, 1) ==> x == '.');
        assert(path && dots_at(a, i, 2) ==> x == '.');
        assert(path && dots_at(b, i, 1) ==> y == '.');
        assert(path && dots_at(b, i, 2) ==> y == '.');
        same_code(x, y);
    }
    assert(a =~= b);
}

fn are_dots_at(s: &Vec<char>, i: usize, n: usize) -> (r: bool)
    requires
        i < s.len(),
    ensures
        r == dots_at(s@, i as int, n as int),
{
    if i > 0 && s[i - 1] != '/' {
        return false;
    }
    if n > s.len() - i {
        return false;
    }
    let mut k: usize = 0;
    while k < n
        invariant
            k <= n <= s.len() - i,
            i < s.len(),
            forall|m: int| i <= m < i + k ==> #[trigger] s@[m] == '.',
        decreases n - k,
    {
        if s[i + k] != '.' {
            return false;
        }
        k += 1;
    }
    i + n == s.len() || s[i + n] == '/'
}

/// Computes the rank of a name.
pub fn name_key(path: bool, s: &str) -> (r: Vec<i64>)
    ensures
        r@ == name_rank(path, s@),
{
    let a = chars(s);
    let mut r: Vec<i64> = Vec::new();
    let mut i: usize = 0;
    while i < a.len()
        invariant
            a@ == s@,
            i <= a.len(),
            r@ =~= name_rank(path, s@).take(i as int),
        decreases a.len() - i,
    {
        let c = a[i];
        if path && c == '/' {
            r.push(-4);
        } else if path && are_dots_at(&a, i, 1) {
            r.push(-3);
        } else if path && are_dots_at(&a, i, 2) {
            r.push(-2);
        } else {
            r.push((c as u32) as i64);
        }
        i += 1;
    }
    r
}

impl Ranked for Seq<char> {
    open spec fn rank(&self) -> Seq<i64> {
        name_rank(false, *self)
    }
}

impl Ranked for String {
    open spec fn rank(&self) -> Seq<i64> {
        name_rank(false, self@)
    }
}

impl Keyed for String {
    fn key(&self) -> (r: Vec<i64>) {
        name_key(false, self.as_str())
    }
}

/// The rank of a number.
pub open spec fn number_rank(n: int) -> Seq<i64> {
    seq![(n / 0x1_0000_0000) as i64, (n % 0x1_0000_0000) as i64]
}

/// The rank of a number among numbers from the largest down.
pub open spec fn falling_rank(n: int) -> Seq<i64> {
    seq![(-(n / 0x1_0000_0000)) as i64, (-(n % 0x1_0000_0000)) as i64]
}

/// Numbers come in the order of their ranks.
pub proof fn number_rank_orders(a: int, b: int)
    requires
        0 <= a <= u64::MAX,
        0 <= b <= u64::MAX,
    ensures
        before(number_rank(a), number_rank(b)) <==> a < b,
        before(falling_rank(a), falling_rank(b)) <==> b < a,
        number_rank(a) == number_rank(b) ==> a == b,
{
    reveal_with_fuel(before_from, 3);
    let x = number_rank(a);
    let y = number_rank(b);
    let m = a / 0x1_0000_0000;
    let n = b / 0x1_0000_0000;
    assert(x[0] == m && y[0] == n);
    assert(x[1] == a % 0x1_0000_0000 && y[1] == b % 0x1_0000_0000);
    let u = falling_rank(a);
    let v = falling_rank(b);
    assert(u[0] == -m && v[0] == -n);
    assert(u[1] == -(a % 0x1_0000_0000) && v[1] == -(b % 0x1_0000_0000));
}

/// Computes the rank of a number.
pub fn number_key(n: usize) -> (r: Vec<i64>)
    ensures
        r@ == number_rank(n as int),
{
    let mut r: Vec<i64> = Vec::new();
    let w: u64 = n as u64;
    r.push((w / 0x1_0000_0000) as i64);
    r.push((w % 0x1_0000_0000) as i64);
    assert(r@ =~= number_rank(n as int));
    r
}

/// Computes the rank of a number among numbers from the largest down.
pub fn falling_key(n: usize) -> (r: Vec<i64>)
    ensures
        r@ == falling_rank(n as int),
{
    let mut r: Vec<i64> = Vec::new();
    let w: u64 = n as u64;
    r.push(-((w / 0x1_0000_0000) as i64));
    r.push(-((w % 0x1_0000_0000) as i64));
    assert(r@ =~= falling_rank(n as int));
    r
}

impl Ranked for u64 {
    open spec fn rank(&self) -> Seq<i64> {
        number_rank(*self as int)
    }
}

impl Keyed for u64 {
    fn key(&self) -> (r: Vec<i64>) {
        let mut r: Vec<i64> = Vec::new();
        r.push((*self / 0x1_0000_0000) as i64);
        r.push((*self % 0x1_0000_0000) as i64);
        assert(r@ =~= number_rank(*self as int));
        r
    }
}

impl Ranked for usize {
    open spec fn rank(&self) -> Seq<i64> {
        number_rank(*self as int)
    }
}

impl Keyed for usize {
    fn key(&self) -> (r: Vec<i64>) {
        number_key(*self)
    }
}

/// The rank of a path: that of its plain spelling, so that paths are ordered component by component,
/// and paths with the same components rank the same.
pub open spec fn path_rank(path: Seq<char>) -> Seq<i64> {
    name_rank(true, plain(path))
}

/// Computes the rank of a path.
pub fn path_key(path: &str) -> (r: Vec<i64>)
    ensures
        r@ == path_rank(path@),
{
    name_key(true, write_plain(path).as_str())
}

/// A path, ordered component by component.
#[verifier::ext_equal]
pub struct PathView {
    pub path: Seq<char>,
}

impl Ranked for PathView {
    open spec fn rank(&self) -> Seq<i64> {
        path_rank(self.path)
    }
}

/// A path, ordered component by component.
pub struct PathName {
    pub path: String,
}

impl View for PathName {
    type V = PathView;

    open spec fn view(&self) -> PathView {
        PathView { path: self.path@ }
    }
}

impl Ranked for PathName {
    open spec fn rank(&self) -> Seq<i64> {
        path_rank(self.path@)
    }
}

impl Keyed for PathName {
    fn key(&self) -> (r: Vec<i64>) {
        path_key(self.path.as_str())
    }
}

// ── sorting ────────────────────────────────────────────────────────────────────────────

/// `s` with `x` put behind the last element that does not come after it.
pub open spec fn placed<T: Ranked>(s: Seq<T>, x: T) -> Seq<T>
    decreases s.len(),
{
    if s.len() == 0 || !before(x.rank(), s.last().rank()) {
        s.push(x)
    } else {
        placed(s.drop_last(), x).push(s.last())
    }
}

/// `s` in ascending order; what ranks the same keeps its order.
pub open spec fn arranged<T: Ranked>(s: Seq<T>) -> Seq<T>
    decreases s.len(),
{
    if s.len() == 0 {
        s
    } else {
        placed(arranged(s.drop_last()), s.last())
    }
}

/// No element comes before an earlier one.
pub open spec fn ascending<T: Ranked>(s: Seq<T>) -> bool {
    forall|i: int, j: int| 0 <= i < j < s.len() ==> !before(#[trigger] s[j].rank(), #[trigger] s[i].rank())
}

proof fn placed_facts<T: Ranked>(s: Seq<T>, x: T)
    requires
        ascending(s),
    ensures
        ascending(placed(s, x)),
        placed(s, x).to_multiset() == s.push(x).to_multiset(),
        placed(s, x).len() == s.len() + 1,
    decreases s.len(),
{
    broadcast use vstd::seq_lib::group_to_multiset_ensures;

    let r = placed(s, x);
    if s.len() == 0 {
    } else if !before(x.rank(), s.last().rank()) {
        assert forall|i: int, j: int| 0 <= i < j < r.len() implies !before(
            #[trigger] r[j].rank(),
            #[trigger] r[i].rank(),
        ) by {
            if j == s.len() && i < s.len() - 1 {
                let l = s.last().rank();
                assert(!before(l, s[i].rank()));
                if before(x.rank(), s[i].rank()) {
                    before_total(l, s[i].rank());
                    if before(s[i].rank(), l) {
                        before_transitive(x.rank(), s[i].rank(), l);
                    }
                }
            }
        }
    } else {
        let p = placed(s.drop_last(), x);
        placed_facts(s.drop_last(), x);
        let l = s.last().rank();
        assert forall|i: int, j: int| 0 <= i < j < r.len() implies !before(
            #[trigger] r[j].rank(),
            #[trigger] r[i].rank(),
        ) by {
            if j == r.len() - 1 {
                assert(p.to_multiset().count(p[i]) > 0) by {
                    assert(p.contains(p[i]));
                }
                assert(s.drop_last().push(x).to_multiset().contains(p[i]));
                let q = s.drop_last().push(x);
                assert(q.contains(p[i]));
                let k = choose|k: int| 0 <= k < q.len() && q[k] == p[i];
                if k == q.len() - 1 {
                    before_asymmetric(x.rank(), l);
                } else {
                    assert(q[k] == s[k]);
                    assert(!before(s[s.len() - 1].rank(), s[k].rank()));
                }
            }
        }
        assert(s =~= s.drop_last().push(s.last()));
        assert(s.push(x).to_multiset() =~= s.drop_last().to_multiset().insert(s.last()).insert(x));
        assert(r.to_multiset() =~= s.drop_last().to_multiset().insert(x).insert(s.last()));
    }
}

/// Sorting puts in order, and neither adds nor loses anything.
pub proof fn arranged_facts<T: Ranked>(s: Seq<T>)
    ensures
        ascending(arranged(s)),
        arranged(s).to_multiset() == s.to_multiset(),
        arranged(s).len() == s.len(),
    decreases s.len(),
{
    broadcast use vstd::seq_lib::group_to_multiset_ensures;

    if s.len() > 0 {
        let t = s.drop_last();
        arranged_facts(t);
        placed_facts(arranged(t), s.last());
        assert(s =~= t.push(s.last()));
        assert(arranged(s).to_multiset() =~= t.to_multiset().insert(s.last()));
    }
}

/// Sorting keeps the elements.
pub proof fn arranged_contains<T: Ranked>(s: Seq<T>, x: T)
    ensures
        arranged(s).contains(x) <==> s.contains(x),
{
    broadcast use vstd::seq_lib::group_to_multiset_ensures;

    arranged_facts(s);
    assert(arranged(s).contains(x) <==> arranged(s).to_multiset().count(x) > 0);
    assert(s.contains(x) <==> s.to_multiset().count(x) > 0);
}

/// What is in order already stays as it is.
pub proof fn arranged_fixed<T: Ranked>(s: Seq<T>)
    requires
        ascending(s),
    ensures
        arranged(s) == s,
    decreases s.len(),
{
    if s.len() > 0 {
        let t = s.drop_last();
        assert(ascending(t)) by {
            assert forall|i: int, j: int| 0 <= i < j < t.len() implies !before(
                #[trigger] t[j].rank(),
                #[trigger] t[i].rank(),
            ) by {
                assert(t[i] == s[i] && t[j] == s[j]);
            }
        }
        arranged_fixed(t);
        if t.len() > 0 {
            assert(t.last() == s[s.len() - 2]);
            assert(!before(s[s.len() - 1].rank(), s[s.len() - 2].rank()));
        }
        assert(t.push(s.last()) =~= s);
    }
}

proof fn placed_mapped<A: Ranked, B: Ranked>(s: Seq<A>, x: A, f: spec_fn(A) -> B)
    requires
        forall|a: A| (#[trigger] f(a)).rank() == a.rank(),
    ensures
        placed(s, x).map_values(f) == placed(s.map_values(f), f(x)),
    decreases s.len(),
{
    let m = s.map_values(f);
    if s.len() == 0 || !before(x.rank(), s.last().rank()) {
        assert(s.push(x).map_values(f) =~= m.push(f(x)));
        if s.len() > 0 {
            assert(m.last() == f(s.last()));
        }
        assert(f(x).rank() == x.rank());
    } else {
        placed_mapped(s.drop_last(), x, f);
        assert(m.drop_last() =~= s.drop_last().map_values(f));
        assert(m.last() == f(s.last()));
        assert(f(x).rank() == x.rank());
        assert(placed(s.drop_last(), x).push(s.last()).map_values(f) =~= placed(
            s.drop_last(),
            x,
        ).map_values(f).push(f(s.last())));
    }
}

/// Sorting commutes with a map that keeps the ranks.
pub proof fn arranged_mapped<A: Ranked, B: Ranked>(s: Seq<A>, f: spec_fn(A) -> B)
    requires
        forall|a: A| (#[trigger] f(a)).rank() == a.rank(),
    ensures
        arranged(s).map_values(f) == arranged(s.map_values(f)),
    decreases s.len(),
{
    if s.len() == 0 {
        assert(s.map_values(f) =~= Seq::<B>::empty());
        assert(arranged(s).map_values(f) =~= Seq::<B>::empty());
    } else {
        arranged_mapped(s.drop_last(), f);
        assert(s.map_values(f).drop_last() =~= s.drop_last().map_values(f));
        placed_mapped(arranged(s.drop_last()), s.last(), f);
    }
}

/// Two sequences in order with the same elements are equal, where elements that rank the same
/// are the same.
pub proof fn ascending_unique<T: Ranked>(s: Seq<T>, t: Seq<T>)
    requires
        ascending(s),
        ascending(t),
        s.to_multiset() == t.to_multiset(),
        forall|i: int, j: int|
            0 <= i < s.len() && 0 <= j < s.len() && #[trigger] s[i].rank() == #[trigger] s[j].rank()
                ==> s[i] == s[j],
    ensures
        s == t,
    decreases s.len(),
{
    broadcast use vstd::seq_lib::group_to_multiset_ensures;

    assert(s.to_multiset().len() == s.len());
    assert(t.to_multiset().len() == t.len());
    if s.len() > 0 {
        let x = s.last();
        let y = t.last();
        assert(s.contains(x) && t.contains(y));
        assert(t.to_multiset().count(x) > 0 && s.to_multiset().count(y) > 0);
        assert(t.contains(x) && s.contains(y));
        let i = choose|i: int| 0 <= i < t.len() && t[i] == x;
        let j = choose|j: int| 0 <= j < s.len() && s[j] == y;
        if i < t.len() - 1 {
            assert(!before(t[t.len() - 1].rank(), t[i].rank()));
        }
        if j < s.len() - 1 {
            assert(!before(s[s.len() - 1].rank(), s[j].rank()));
        }
        before_total(x.rank(), y.rank());
        assert(s[s.len() - 1].rank() == s[j].rank());
        assert(x == y);
        let a = s.drop_last();
        let b = t.drop_last();
        assert(s =~= a.push(x) && t =~= b.push(x));
        assert(a.to_multiset() =~= s.to_multiset().remove(x));
        assert(b.to_multiset() =~= t.to_multiset().remove(x));
        assert forall|i: int, j: int| 0 <= i < j < a.len() implies !before(
            #[trigger] a[j].rank(),
            #[trigger] a[i].rank(),
        ) by {
            assert(a[i] == s[i] && a[j] == s[j]);
        }
        assert forall|i: int, j: int| 0 <= i < j < b.len() implies !before(
            #[trigger] b[j].rank(),
            #[trigger] b[i].rank(),
        ) by {
            assert(b[i] == t[i] && b[j] == t[j]);
        }
        assert forall|i: int, j: int|
            0 <= i < a.len() && 0 <= j < a.len() && #[trigger] a[i].rank() == #[trigger] a[j].rank() implies a[i]
            == a[j] by {
            assert(a[i] == s[i] && a[j] == s[j]);
        }
        ascending_unique(a, b);
    } else {
        assert(t.len() == 0);
        assert(s =~= t);
    }
}

/// Sorting does not depend on the order of what is sorted, where elements that rank the same
/// are the same.
pub proof fn arranged_permuted<T: Ranked>(s: Seq<T>, t: Seq<T>)
    requires
        s.to_multiset() == t.to_multiset(),
        forall|i: int, j: int|
            0 <= i < s.len() && 0 <= j < s.len() && #[trigger] s[i].rank() == #[trigger] s[j].rank()
                ==> s[i] == s[j],
    ensures
        arranged(s) == arranged(t),
{
    arranged_facts(s);
    arranged_facts(t);
    let a = arranged(s);
    assert forall|i: int, j: int|
        0 <= i < a.len() && 0 <= j < a.len() && #[trigger] a[i].rank() == #[trigger] a[j].rank() implies a[i]
        == a[j] by {
        arranged_contains(s, a[i]);
        arranged_contains(s, a[j]);
        assert(a.contains(a[i]) && a.contains(a[j]));
        let m = choose|m: int| 0 <= m < s.len() && s[m] == a[i];
        let n = choose|n: int| 0 <= n < s.len() && s[n] == a[j];
        assert(s[m].rank() == s[n].rank());
    }
    ascending_unique(a, arranged(t));
}

/// Sorts; what ranks the same keeps its order.
pub fn arrange<T: Keyed>(v: Vec<T>) -> (r: Vec<T>)
    ensures
        r@ == arranged(v@),
{
    let mut rest = v;
    let mut out: Vec<T> = Vec::new();
    let mut keys: Vec<Vec<i64>> = Vec::new();
    let ghost all = v@;
    assert(all.take(0) =~= Seq::<T>::empty());
    while rest.len() > 0
        invariant
            rest.len() <= all.len(),
            rest@ == all.skip(all.len() - rest.len()),
            out@ == arranged(all.take(all.len() - rest.len())),
            out.len() == keys.len() == all.len() - rest.len(),
            forall|i: int| 0 <= i < out.len() ==> (#[trigger] keys@[i])@ == out@[i].rank(),
        decreases rest.len(),
    {
        let ghost n = all.len() - rest.len();
        assert(all.take(n + 1).drop_last() =~= all.take(n));
        assert(all.take(n + 1).last() == rest@[0]);
        let x = rest.remove(0);
        assert(rest@ =~= all.skip(n + 1));
        let k = x.key();
        let mut i: usize = out.len();
        assert(out@.take(i as int) =~= out@);
        assert(out@.skip(i as int) =~= Seq::<T>::empty());
        assert(placed(out@, x) =~= placed(out@.take(i as int), x) + out@.skip(i as int));
        while i > 0 && precedes(&k, &keys[i - 1])
            invariant
                i <= out.len() == keys.len(),
                k@ == x.rank(),
                forall|i: int| 0 <= i < out.len() ==> (#[trigger] keys@[i])@ == out@[i].rank(),
                placed(out@, x) == placed(out@.take(i as int), x) + out@.skip(i as int),
            decreases i,
        {
            assert(out@.take(i as int).drop_last() =~= out@.take(i - 1));
            assert(placed(out@.take(i as int), x) + out@.skip(i as int) =~= placed(
                out@.take(i - 1),
                x,
            ) + out@.skip(i - 1));
            i -= 1;
        }
        assert(placed(out@, x) =~= out@.insert(i as int, x));
        out.insert(i, x);
        keys.insert(i, k);
    }
    assert(all.take(all.len() as int) =~= all);
    out
}

/// `s` without the elements that rank the same as the one kept just before them.
pub open spec fn thinned<T: Ranked>(s: Seq<T>) -> Seq<T>
    decreases s.len(),
{
    if s.len() == 0 {
        s
    } else {
        let t = thinned(s.drop_last());
        if t.len() > 0 && t.last().rank() == s.last().rank() {
            t
        } else {
            t.push(s.last())
        }
    }
}

/// `s` sorted, with one element of each rank.
pub open spec fn canonical<T: Ranked>(s: Seq<T>) -> Seq<T> {
    thinned(arranged(s))
}

/// Each element comes before every later one.
pub open spec fn strictly_ascending<T: Ranked>(s: Seq<T>) -> bool {
    forall|i: int, j: int| 0 <= i < j < s.len() ==> before(#[trigger] s[i].rank(), #[trigger] s[j].rank())
}

proof fn thinned_facts<T: Ranked>(s: Seq<T>)
    requires
        ascending(s),
    ensures
        strictly_ascending(thinned(s)),
        s.len() > 0 ==> thinned(s).len() > 0 && thinned(s).last().rank() == s.last().rank(),
        forall|x: T| thinned(s).contains(x) ==> s.contains(x),
        forall|x: T| s.contains(x) ==> exists|i: int|
            0 <= i < thinned(s).len() && #[trigger] thinned(s)[i].rank() == x.rank(),
    decreases s.len(),
{
    if s.len() > 0 {
        let d = s.drop_last();
        let l = s.last();
        let t = thinned(d);
        let r = thinned(s);
        assert(ascending(d)) by {
            assert forall|i: int, j: int| 0 <= i < j < d.len() implies !before(
                #[trigger] d[j].rank(),
                #[trigger] d[i].rank(),
            ) by {
                assert(d[i] == s[i] && d[j] == s[j]);
            }
        }
        thinned_facts(d);
        if t.len() > 0 && t.last().rank() == l.rank() {
        } else {
            if d.len() > 0 {
                assert(d.last() == s[s.len() - 2]);
                assert(!before(s[s.len() - 1].rank(), s[s.len() - 2].rank()));
                before_total(t.last().rank(), l.rank());
            }
            assert forall|i: int, j: int| 0 <= i < j < r.len() implies before(
                #[trigger] r[i].rank(),
                #[trigger] r[j].rank(),
            ) by {
                if j == r.len() - 1 && i < t.len() - 1 {
                    assert(before(t[i].rank(), t[t.len() - 1].rank()));
                    before_transitive(t[i].rank(), t.last().rank(), l.rank());
                }
            }
        }
        assert forall|x: T| r.contains(x) implies s.contains(x) by {
            let k = choose|k: int| 0 <= k < r.len() && r[k] == x;
            if k < t.len() {
                assert(t[k] == x);
                assert(t.contains(x));
                assert(d.contains(x));
                let m = choose|m: int| 0 <= m < d.len() && d[m] == x;
                assert(s[m] == x);
            } else {
                assert(s[s.len() - 1] == x);
            }
        }
        assert forall|x: T| s.contains(x) implies exists|i: int|
            0 <= i < r.len() && #[trigger] r[i].rank() == x.rank() by {
            let k = choose|k: int| 0 <= k < s.len() && s[k] == x;
            if k < d.len() {
                assert(d[k] == x);
                assert(d.contains(x));
                let m = choose|m: int| 0 <= m < t.len() && #[trigger] t[m].rank() == x.rank();
                assert(r[m].rank() == x.rank());
            } else {
                assert(r[r.len() - 1].rank() == x.rank());
            }
        }
    }
}

/// The canonical form is strictly ascending, and holds exactly one element of each rank that
/// occurs.
pub proof fn canonical_facts<T: Ranked>(s: Seq<T>)
    ensures
        strictly_ascending(canonical(s)),
        forall|x: T| canonical(s).contains(x) ==> s.contains(x),
        forall|x: T| s.contains(x) ==> exists|i: int|
            0 <= i < canonical(s).len() && #[trigger] canonical(s)[i].rank() == x.rank(),
{
    arranged_facts(s);
    thinned_facts(arranged(s));
    assert forall|x: T| canonical(s).contains(x) implies s.contains(x) by {
        arranged_contains(s, x);
    }
    assert forall|x: T| s.contains(x) implies exists|i: int|
        0 <= i < canonical(s).len() && #[trigger] canonical(s)[i].rank() == x.rank() by {
        arranged_contains(s, x);
        let t = thinned(arranged(s));
        let i = choose|i: int| 0 <= i < t.len() && #[trigger] t[i].rank() == x.rank();
        assert(canonical(s)[i].rank() == x.rank());
    }
}

/// What is strictly ascending is its own canonical form.
pub proof fn canonical_fixed<T: Ranked>(s: Seq<T>)
    requires
        strictly_ascending(s),
    ensures
        canonical(s) == s,
{
    assert forall|i: int, j: int| 0 <= i < j < s.len() implies !before(
        #[trigger] s[j].rank(),
        #[trigger] s[i].rank(),
    ) by {
        before_asymmetric(s[i].rank(), s[j].rank());
    }
    arranged_fixed(s);
    thinned_fixed(s);
}

proof fn thinned_fixed<T: Ranked>(s: Seq<T>)
    requires
        strictly_ascending(s),
    ensures
        thinned(s) == s,
    decreases s.len(),
{
    if s.len() > 0 {
        let d = s.drop_last();
        assert(strictly_ascending(d)) by {
            assert forall|i: int, j: int| 0 <= i < j < d.len() implies before(
                #[trigger] d[i].rank(),
                #[trigger] d[j].rank(),
            ) by {
                assert(d[i] == s[i] && d[j] == s[j]);
            }
        }
        thinned_fixed(d);
        if d.len() > 0 {
            assert(before(s[s.len() - 2].rank(), s[s.len() - 1].rank()));
            before_irreflexive(s.last().rank());
        }
        assert(d.push(s.last()) =~= s);
    }
}

proof fn thinned_mapped<A: Ranked, B: Ranked>(s: Seq<A>, f: spec_fn(A) -> B)
    requires
        forall|a: A| (#[trigger] f(a)).rank() == a.rank(),
    ensures
        thinned(s).map_values(f) == thinned(s.map_values(f)),
    decreases s.len(),
{
    let m = s.map_values(f);
    if s.len() == 0 {
        assert(m =~= Seq::<B>::empty());
        assert(thinned(s).map_values(f) =~= m);
    } else {
        let t = thinned(s.drop_last());
        thinned_mapped(s.drop_last(), f);
        assert(m.drop_last() =~= s.drop_last().map_values(f));
        assert(m.last() == f(s.last()));
        let u = t.map_values(f);
        if t.len() > 0 {
            assert(u.last() == f(t.last()));
        }
        assert(t.push(s.last()).map_values(f) =~= u.push(m.last()));
    }
}

/// Taking the canonical form commutes with a map that keeps the ranks.
pub proof fn canonical_mapped<A: Ranked, B: Ranked>(s: Seq<A>, f: spec_fn(A) -> B)
    requires
        forall|a: A| (#[trigger] f(a)).rank() == a.rank(),
    ensures
        canonical(s).map_values(f) == canonical(s.map_values(f)),
{
    arranged_mapped(s, f);
    thinned_mapped(arranged(s), f);
}

/// Sorts, and keeps one element of each rank.
pub fn canon<T: Keyed>(v: Vec<T>) -> (r: Vec<T>)
    ensures
        r@ == canonical(v@),
{
    let mut rest = arrange(v);
    let ghost all = rest@;
    let mut out: Vec<T> = Vec::new();
    let mut last: Vec<i64> = Vec::new();
    assert(all.take(0) =~= Seq::<T>::empty());
    while rest.len() > 0
        invariant
            rest.len() <= all.len(),
            rest@ == all.skip(all.len() - rest.len()),
            out@ == thinned(all.take(all.len() - rest.len())),
            out.len() > 0 ==> last@ == out@.last().rank(),
        decreases rest.len(),
    {
        let ghost n = all.len() - rest.len();
        assert(all.take(n + 1).drop_last() =~= all.take(n));
        assert(all.take(n + 1).last() == rest@[0]);
        let x = rest.remove(0);
        assert(rest@ =~= all.skip(n + 1));
        let k = x.key();
        let repeated = out.len() > 0 && !precedes(&last, &k) && !precedes(&k, &last);
        proof {
            before_total(last@, k@);
            before_irreflexive(k@);
        }
        if !repeated {
            out.push(x);
            last = k;
        }
    }
    assert(all.take(all.len() as int) =~= all);
    out
}

/// Whether `r` lists the strings of `raw` in order, each once.
pub open spec fn sorted_set(r: Seq<Seq<char>>, raw: Seq<Seq<char>>) -> bool {
    &&& strictly_ascending(r)
    &&& forall|x: Seq<char>| #[trigger] r.contains(x) <==> raw.contains(x)
}

/// Sorts a list of strings, and keeps one of each.
pub fn sort_dedup(v: Vec<String>) -> (r: Vec<String>)
    ensures
        sorted_set(texts(r@), texts(v@)),
        r@ == canonical(v@),
{
    let r = canon(v);
    proof {
        canonical_facts(v@);
        assert forall|i: int, j: int| 0 <= i < j < texts(r@).len() implies before(
            #[trigger] texts(r@)[i].rank(),
            #[trigger] texts(r@)[j].rank(),
        ) by {
            assert(before(r@[i].rank(), r@[j].rank()));
        }
        assert forall|x: Seq<char>| #[trigger] texts(r@).contains(x) <==> texts(v@).contains(x) by {
            if texts(r@).contains(x) {
                let i = choose|i: int| 0 <= i < texts(r@).len() && texts(r@)[i] == x;
                assert(r@.contains(r@[i]));
                assert(v@.contains(r@[i]));
                let j = choose|j: int| 0 <= j < v@.len() && v@[j] == r@[i];
                assert(texts(v@)[j] == x);
            }
            if texts(v@).contains(x) {
                let j = choose|j: int| 0 <= j < texts(v@).len() && texts(v@)[j] == x;
                assert(v@.contains(v@[j]));
                let c = canonical(v@);
                let i = choose|i: int| 0 <= i < c.len() && #[trigger] c[i].rank() == v@[j].rank();
                name_rank_injective(false, c[i]@, v@[j]@);
                assert(texts(r@)[i] == x);
            }
        }
    }
    r
}

proof fn strings_unique(a: Seq<Seq<char>>, b: Seq<Seq<char>>)
    requires
        strictly_ascending(a),
        strictly_ascending(b),
        forall|x: Seq<char>| #[trigger] a.contains(x) <==> b.contains(x),
    ensures
        a == b,
    decreases a.len(),
{
    if a.len() == 0 {
        if b.len() > 0 {
            assert(b.contains(b[0]));
            assert(a.contains(b[0]));
        }
        assert(a =~= b);
    } else {
        let x = a.last();
        assert(a.contains(x));
        assert(b.contains(x));
        let y = b.last();
        assert(b.contains(y));
        assert(a.contains(y));
        let i = choose|i: int| 0 <= i < a.len() && a[i] == y;
        let j = choose|j: int| 0 <= j < b.len() && b[j] == x;
        if x != y {
            assert(before(a[i].rank(), a[a.len() - 1].rank()));
            assert(before(b[j].rank(), b[b.len() - 1].rank()));
            before_asymmetric(x.rank(), y.rank());
        }
        let c = a.drop_last();
        let d = b.drop_last();
        assert(c.push(x) =~= a);
        assert(d.push(x) =~= b);
        shorter_ascends(a);
        shorter_ascends(b);
        assert forall|z: Seq<char>| #[trigger] c.contains(z) <==> d.contains(z) by {
            pushed_contains(c, x, z);
            pushed_contains(d, x, z);
        }
        strings_unique(c, d);
    }
}

/// What is strictly ascending does so without its last element, which does not occur before.
proof fn shorter_ascends(a: Seq<Seq<char>>)
    requires
        strictly_ascending(a),
        a.len() > 0,
    ensures
        strictly_ascending(a.drop_last()),
        !a.drop_last().contains(a.last()),
{
    let c = a.drop_last();
    assert forall|i: int, j: int| 0 <= i < j < c.len() implies before(
        #[trigger] c[i].rank(),
        #[trigger] c[j].rank(),
    ) by {
        assert(c[i] == a[i] && c[j] == a[j]);
    }
    if c.contains(a.last()) {
        let k = choose|k: int| 0 <= k < c.len() && c[k] == a.last();
        assert(before(a[k].rank(), a[a.len() - 1].rank()));
        before_irreflexive(a.last().rank());
    }
}

/// There is one list that has the strings of another in order, each once.
pub proof fn sorted_set_is_canonical(r: Seq<Seq<char>>, raw: Seq<Seq<char>>)
    requires
        sorted_set(r, raw),
    ensures
        r == canonical(raw),
{
    canonical_facts(raw);
    let c = canonical(raw);
    assert forall|x: Seq<char>| #[trigger] r.contains(x) <==> c.contains(x) by {
        if r.contains(x) {
            assert(raw.contains(x));
            let i = choose|i: int| 0 <= i < c.len() && #[trigger] c[i].rank() == x.rank();
            name_rank_injective(false, c[i], x);
        }
    }
    strings_unique(r, c);
}

/// Sorts a list of strings.
pub fn sort_texts(v: Vec<String>) -> (r: Vec<String>)
    ensures
        texts(r@) == arranged(texts(v@)),
        r@ == arranged(v@),
{
    proof {
        arranged_mapped(v@, |s: String| s@);
    }
    arrange(v)
}

// ── tables ─────────────────────────────────────────────────────────────────────────────

/// Whether the names of the rows come one before the other.
pub open spec fn in_order<V>(path: bool, rows: Seq<(Seq<char>, V)>) -> bool {
    forall|i: int, j: int|
        0 <= i < j < rows.len() ==> before(
            name_rank(path, #[trigger] rows[i].0),
            name_rank(path, #[trigger] rows[j].0),
        )
}

/// The row that `k` names.
pub open spec fn row_of<V>(rows: Seq<(Seq<char>, V)>, k: Seq<char>) -> Option<int> {
    if exists|i: int| 0 <= i < rows.len() && #[trigger] rows[i].0 == k {
        Some(choose|i: int| 0 <= i < rows.len() && #[trigger] rows[i].0 == k)
    } else {
        None
    }
}

/// Whether some row is named `k`.
pub open spec fn named<V>(rows: Seq<(Seq<char>, V)>, k: Seq<char>) -> bool {
    exists|i: int| 0 <= i < rows.len() && #[trigger] rows[i].0 == k
}

/// The value of the row that `k` names.
pub open spec fn value_of<V>(rows: Seq<(Seq<char>, V)>, k: Seq<char>) -> Option<V> {
    match row_of(rows, k) {
        Some(i) => Some(rows[i].1),
        None => None,
    }
}

/// Rows in order have different names, so a name picks out one row.
pub proof fn row_unique<V>(path: bool, rows: Seq<(Seq<char>, V)>, i: int)
    requires
        in_order(path, rows),
        0 <= i < rows.len(),
    ensures
        row_of(rows, rows[i].0) == Some(i),
        value_of(rows, rows[i].0) == Some(rows[i].1),
{
    let j = row_of(rows, rows[i].0)->0;
    assert(0 <= j < rows.len() && rows[j].0 == rows[i].0);
    before_irreflexive(name_rank(path, rows[i].0));
    if i < j {
        assert(before(name_rank(path, rows[i].0), name_rank(path, rows[j].0)));
    } else if j < i {
        assert(before(name_rank(path, rows[j].0), name_rank(path, rows[i].0)));
    }
}

/// Two tables of rows that give the same value to every name.
pub open spec fn same_but<V>(
    new: Seq<(Seq<char>, V)>,
    old_rows: Seq<(Seq<char>, V)>,
    k: Seq<char>,
    v: V,
) -> bool {
    &&& value_of(new, k) == Some(v)
    &&& named(new, k)
    &&& forall|n: Seq<char>| n != k ==> #[trigger] value_of(new, n) == value_of(old_rows, n)
    &&& forall|n: Seq<char>| n != k ==> (#[trigger] named(new, n) <==> named(old_rows, n))
}

/// Giving a row a new value leaves the order as it is.
pub proof fn row_updated<V>(path: bool, rows: Seq<(Seq<char>, V)>, j: int, v: V)
    requires
        in_order(path, rows),
        0 <= j < rows.len(),
    ensures
        in_order(path, rows.update(j, (rows[j].0, v))),
        same_but(rows.update(j, (rows[j].0, v)), rows, rows[j].0, v),
{
    let k = rows[j].0;
    let new = rows.update(j, (k, v));
    assert forall|a: int, b: int| 0 <= a < b < new.len() implies before(
        name_rank(path, #[trigger] new[a].0),
        name_rank(path, #[trigger] new[b].0),
    ) by {
        assert(new[a].0 == rows[a].0 && new[b].0 == rows[b].0);
    }
    assert(new[j].0 == k);
    row_unique(path, new, j);
    assert forall|n: Seq<char>| n != k implies #[trigger] value_of(new, n) == value_of(rows, n) && (
    named(new, n) <==> named(rows, n)) by {
        if named(rows, n) {
            let a = choose|a: int| 0 <= a < rows.len() && #[trigger] rows[a].0 == n;
            row_unique(path, rows, a);
            assert(new[a].0 == n);
            row_unique(path, new, a);
        } else if named(new, n) {
            let a = choose|a: int| 0 <= a < new.len() && #[trigger] new[a].0 == n;
            assert(rows[a].0 == n);
        }
    }
    assert forall|n: Seq<char>| n != k implies (#[trigger] named(new, n) <==> named(rows, n)) by {
        assert(value_of(new, n) == value_of(rows, n));
    }
}

/// Putting a new row where its name belongs leaves the rows in order.
pub proof fn row_inserted<V>(
    path: bool,
    rows: Seq<(Seq<char>, V)>,
    i: int,
    k: Seq<char>,
    v: V,
)
    requires
        in_order(path, rows),
        0 <= i <= rows.len(),
        !named(rows, k),
        forall|a: int| 0 <= a < i ==> before(name_rank(path, #[trigger] rows[a].0), name_rank(path, k)),
        forall|a: int|
            i <= a < rows.len() ==> !before(
                name_rank(path, #[trigger] rows[a].0),
                name_rank(path, k),
            ),
    ensures
        in_order(path, rows.insert(i, (k, v))),
        same_but(rows.insert(i, (k, v)), rows, k, v),
{
    let new = rows.insert(i, (k, v));
    assert forall|a: int| i <= a < rows.len() implies before(
        name_rank(path, k),
        name_rank(path, #[trigger] rows[a].0),
    ) by {
        before_total(name_rank(path, k), name_rank(path, rows[a].0));
        if name_rank(path, k) == name_rank(path, rows[a].0) {
            name_rank_injective(path, k, rows[a].0);
        }
    }
    assert forall|a: int, b: int| 0 <= a < b < new.len() implies before(
        name_rank(path, #[trigger] new[a].0),
        name_rank(path, #[trigger] new[b].0),
    ) by {
        let x = if a < i {
            a
        } else {
            a - 1
        };
        let y = if b < i {
            b
        } else {
            b - 1
        };
        if a != i {
            assert(new[a] == rows[x]);
        }
        if b != i {
            assert(new[b] == rows[y]);
        }
    }
    assert(new[i].0 == k);
    row_unique(path, new, i);
    assert forall|n: Seq<char>| n != k implies #[trigger] value_of(new, n) == value_of(rows, n) && (
    named(new, n) <==> named(rows, n)) by {
        if named(rows, n) {
            let a = choose|a: int| 0 <= a < rows.len() && #[trigger] rows[a].0 == n;
            row_unique(path, rows, a);
            let b = if a < i {
                a
            } else {
                a + 1
            };
            assert(new[b] == rows[a]);
            row_unique(path, new, b);
        } else if named(new, n) {
            let b = choose|b: int| 0 <= b < new.len() && #[trigger] new[b].0 == n;
            let a = if b < i {
                b
            } else {
                b - 1
            };
            assert(rows[a].0 == n);
        }
    }
    assert forall|n: Seq<char>| n != k implies (#[trigger] named(new, n) <==> named(rows, n)) by {
        assert(value_of(new, n) == value_of(rows, n));
    }
}

/// The name that a row is kept under: the string itself, or the plain spelling of a path.
pub open spec fn key_of(path: bool, k: Seq<char>) -> Seq<char> {
    if path {
        plain(k)
    } else {
        k
    }
}

/// Whether every row stands under the name that it is kept under.
pub open spec fn all_keys<V>(path: bool, rows: Seq<(Seq<char>, V)>) -> bool {
    forall|i: int| 0 <= i < rows.len() ==> key_of(path, #[trigger] rows[i].0) == rows[i].0
}

/// A map from names to values, kept in the order of the names: as strings, or with `PATH` as
/// paths, of which those with the same components are one.
#[verifier::reject_recursive_types(V)]
#[derive(Debug)]
pub struct Table<V, const PATH: bool> {
    rows: Vec<(String, V)>,
}

/// A set of names in order.
pub type Names = Table<(), false>;

impl<V, const PATH: bool> View for Table<V, PATH> {
    type V = Seq<(Seq<char>, V)>;

    closed spec fn view(&self) -> Seq<(Seq<char>, V)> {
        row_views(self.rows@)
    }
}

/// The views of stored rows.
spec fn row_views<V>(rows: Seq<(String, V)>) -> Seq<(Seq<char>, V)> {
    rows.map_values(|r: (String, V)| (r.0@, r.1))
}

impl<V, const PATH: bool> Table<V, PATH> {
    #[verifier::type_invariant]
    pub closed spec fn wf(self) -> bool {
        in_order(PATH, self@) && all_keys(PATH, self@)
    }

    /// A table without rows.
    pub fn new() -> (r: Self)
        ensures
            r@ == Seq::<(Seq<char>, V)>::empty(),
    {
        let r = Table { rows: Vec::new() };
        assert(r@ =~= Seq::<(Seq<char>, V)>::empty());
        r
    }

    /// The number of rows.
    pub fn len(&self) -> (r: usize)
        ensures
            r == self@.len(),
            in_order(PATH, self@),
            all_keys(PATH, self@),
    {
        proof {
            use_type_invariant(self);
        }
        self.rows.len()
    }

    /// Whether there are no rows.
    pub fn is_empty(&self) -> (r: bool)
        ensures
            r == (self@.len() == 0),
            in_order(PATH, self@),
    {
        self.len() == 0
    }

    /// The name of a row.
    pub fn name(&self, i: usize) -> (r: &String)
        requires
            i < self@.len(),
        ensures
            r@ == self@[i as int].0,
    {
        &self.rows[i].0
    }

    /// The value of a row.
    pub fn value(&self, i: usize) -> (r: &V)
        requires
            i < self@.len(),
        ensures
            *r == self@[i as int].1,
    {
        &self.rows[i].1
    }

    /// The first row that does not come before `k`.
    fn slot(&self, k: &str) -> (r: usize)
        ensures
            r <= self@.len(),
            forall|i: int|
                0 <= i < r ==> before(name_rank(PATH, #[trigger] self@[i].0), name_rank(PATH, k@)),
            forall|i: int|
                r <= i < self@.len() ==> !before(
                    name_rank(PATH, #[trigger] self@[i].0),
                    name_rank(PATH, k@),
                ),
    {
        proof {
            use_type_invariant(self);
        }
        let key = name_key(PATH, k);
        let mut lo: usize = 0;
        let mut hi: usize = self.rows.len();
        while lo < hi
            invariant
                lo <= hi <= self@.len(),
                self.rows.len() == self@.len(),
                key@ == name_rank(PATH, k@),
                in_order(PATH, self@),
                forall|i: int|
                    0 <= i < lo ==> before(
                        name_rank(PATH, #[trigger] self@[i].0),
                        name_rank(PATH, k@),
                    ),
                forall|i: int|
                    hi <= i < self@.len() ==> !before(
                        name_rank(PATH, #[trigger] self@[i].0),
                        name_rank(PATH, k@),
                    ),
            decreases hi - lo,
        {
            let mid: usize = lo + (hi - lo) / 2;
            let other = name_key(PATH, self.rows[mid].0.as_str());
            assert(other@ == name_rank(PATH, self@[mid as int].0));
            if precedes(&other, &key) {
                assert forall|i: int| 0 <= i < mid + 1 implies before(
                    name_rank(PATH, #[trigger] self@[i].0),
                    name_rank(PATH, k@),
                ) by {
                    if i < mid {
                        before_transitive(name_rank(PATH, self@[i].0), other@, key@);
                    }
                }
                lo = mid + 1;
            } else {
                assert forall|i: int| mid <= i < self@.len() implies !before(
                    name_rank(PATH, #[trigger] self@[i].0),
                    name_rank(PATH, k@),
                ) by {
                    if i > mid && before(name_rank(PATH, self@[i].0), key@) {
                        before_transitive(other@, name_rank(PATH, self@[i].0), key@);
                    }
                }
                hi = mid;
            }
        }
        lo
    }

    /// The row that `k` names.
    pub fn find(&self, k: &str) -> (r: Option<usize>)
        ensures
            in_order(PATH, self@),
            all_keys(PATH, self@),
            match r {
                Some(i) => i < self@.len() && self@[i as int].0 == key_of(PATH, k@) && row_of(
                    self@,
                    key_of(PATH, k@),
                ) == Some(i as int) && value_of(self@, key_of(PATH, k@)) == Some(self@[i as int].1)
                    && named(self@, key_of(PATH, k@)),
                None => row_of(self@, key_of(PATH, k@)) is None && value_of(
                    self@,
                    key_of(PATH, k@),
                ) is None && !named(self@, key_of(PATH, k@)),
            },
    {
        if PATH {
            self.find_key(write_plain(k).as_str())
        } else {
            self.find_key(k)
        }
    }

    fn find_key(&self, k: &str) -> (r: Option<usize>)
        ensures
            in_order(PATH, self@),
            all_keys(PATH, self@),
            match r {
                Some(i) => i < self@.len() && self@[i as int].0 == k@ && row_of(self@, k@) == Some(
                    i as int,
                ) && value_of(self@, k@) == Some(self@[i as int].1) && named(self@, k@),
                None => row_of(self@, k@) is None && value_of(self@, k@) is None && !named(self@, k@),
            },
    {
        proof {
            use_type_invariant(self);
        }
        let i = self.slot(k);
        if i < self.rows.len() && crate::text::same(self.rows[i].0.as_str(), k) {
            proof {
                row_unique(PATH, self@, i as int);
            }
            Some(i)
        } else {
            assert forall|j: int| 0 <= j < self@.len() implies #[trigger] self@[j].0 != k@ by {
                before_irreflexive(name_rank(PATH, k@));
                if self@[j].0 == k@ {
                    assert(j >= i);
                    assert(j > i);
                    assert(before(name_rank(PATH, self@[i as int].0), name_rank(PATH, self@[j].0)));
                }
            }
            None
        }
    }

    /// The value that `k` names.
    pub fn get(&self, k: &str) -> (r: Option<&V>)
        ensures
            match r {
                Some(v) => value_of(self@, key_of(PATH, k@)) == Some(*v) && named(
                    self@,
                    key_of(PATH, k@),
                ),
                None => value_of(self@, key_of(PATH, k@)) is None && !named(
                    self@,
                    key_of(PATH, k@),
                ),
            },
    {
        match self.find(k) {
            Some(i) => Some(&self.rows[i].1),
            None => None,
        }
    }

    /// Whether some row is named `k`.
    pub fn contains(&self, k: &str) -> (r: bool)
        ensures
            r == named(self@, key_of(PATH, k@)),
    {
        self.find(k).is_some()
    }

    /// Gives `k` the value `v`, in the row that it names or in a new one.
    pub fn insert(&mut self, k: String, v: V)
        ensures
            in_order(PATH, final(self)@),
            same_but(final(self)@, old(self)@, key_of(PATH, k@), v),
            final(self)@.len() == old(self)@.len() + (if named(old(self)@, key_of(PATH, k@)) {
                0int
            } else {
                1int
            }),
    {
        proof {
            plain_keeps_components(k@);
        }
        if PATH {
            self.insert_key(write_plain(k.as_str()), v);
        } else {
            self.insert_key(k, v);
        }
    }

    fn insert_key(&mut self, k: String, v: V)
        requires
            key_of(PATH, k@) == k@,
        ensures
            in_order(PATH, final(self)@),
            same_but(final(self)@, old(self)@, k@, v),
            final(self)@.len() == old(self)@.len() + (if named(old(self)@, k@) {
                0int
            } else {
                1int
            }),
    {
        let found = self.find_key(k.as_str());
        let i = self.slot(k.as_str());
        let ghost pre = self@;
        proof {
            use_type_invariant(&*self);
        }
        let mut rows: Vec<(String, V)> = Vec::new();
        std::mem::swap(&mut self.rows, &mut rows);
        match found {
            Some(j) => {
                proof {
                    row_updated(PATH, pre, j as int, v);
                    assert(row_views(rows@.update(j as int, (k, v))) =~= pre.update(
                        j as int,
                        (k@, v),
                    ));
                }
                rows.set(j, (k, v));
                assert(all_keys(PATH, row_views(rows@))) by {
                    assert forall|a: int| 0 <= a < rows@.len() implies key_of(
                        PATH,
                        #[trigger] row_views(rows@)[a].0,
                    ) == row_views(rows@)[a].0 by {
                        assert(row_views(rows@)[a].0 == pre[a].0);
                    }
                }
            },
            None => {
                proof {
                    row_inserted(PATH, pre, i as int, k@, v);
                    assert(row_views(rows@.insert(i as int, (k, v))) =~= pre.insert(
                        i as int,
                        (k@, v),
                    ));
                }
                rows.insert(i, (k, v));
                assert(all_keys(PATH, row_views(rows@))) by {
                    assert forall|a: int| 0 <= a < rows@.len() implies key_of(
                        PATH,
                        #[trigger] row_views(rows@)[a].0,
                    ) == row_views(rows@)[a].0 by {
                        if a < i {
                            assert(row_views(rows@)[a].0 == pre[a].0);
                        } else if a > i {
                            assert(row_views(rows@)[a].0 == pre[a - 1].0);
                        }
                    }
                }
            },
        }
        self.rows = rows;
    }

    /// Gives a row the value `v` and hands back the value that it had.
    pub fn swap(&mut self, i: usize, v: V) -> (r: V)
        requires
            i < old(self)@.len(),
        ensures
            r == old(self)@[i as int].1,
            final(self)@ == old(self)@.update(i as int, (old(self)@[i as int].0, v)),
            in_order(PATH, final(self)@),
            same_but(final(self)@, old(self)@, old(self)@[i as int].0, v),
    {
        let ghost pre = self@;
        proof {
            use_type_invariant(&*self);
            row_updated(PATH, pre, i as int, v);
        }
        let mut rows: Vec<(String, V)> = Vec::new();
        std::mem::swap(&mut self.rows, &mut rows);
        let ghost stored = rows@;
        let row = rows.remove(i);
        let ghost without = rows@;
        proof {
            assert(without.insert(i as int, (row.0, v)) =~= stored.update(i as int, (row.0, v)));
            assert(row_views(stored.update(i as int, (row.0, v))) =~= pre.update(
                i as int,
                (pre[i as int].0, v),
            ));
        }
        rows.insert(i, (row.0, v));
        assert(all_keys(PATH, row_views(rows@))) by {
            assert forall|a: int| 0 <= a < rows@.len() implies key_of(
                PATH,
                #[trigger] row_views(rows@)[a].0,
            ) == row_views(rows@)[a].0 by {
                assert(row_views(rows@)[a].0 == pre[a].0);
            }
        }
        self.rows = rows;
        row.1
    }
}

// ── pairs of names ─────────────────────────────────────────────────────────────────────

/// Whether a table links `a` to `b`.
pub open spec fn links(rows: Seq<(Seq<char>, Names)>, a: Seq<char>, b: Seq<char>) -> bool {
    match value_of(rows, a) {
        Some(s) => named(s@, b),
        None => false,
    }
}

/// Links `a` to `b`.
pub fn link(t: &mut Table<Names, false>, a: &str, b: &str)
    ensures
        forall|x: Seq<char>, y: Seq<char>| #[trigger]
            links(final(t)@, x, y) <==> links(old(t)@, x, y) || (x == a@ && y == b@),
        forall|x: Seq<char>| #[trigger] named(final(t)@, x) <==> named(old(t)@, x) || x == a@,
{
    let ghost before = t@;
    match t.find(a) {
        Some(i) => {
            let mut set = t.swap(i, Table::new());
            let ghost had = set@;
            let ghost mid = t@;
            set.insert(b.to_owned(), ());
            let _ = t.swap(i, set);
            proof {
                assert forall|x: Seq<char>, y: Seq<char>| #[trigger] links(t@, x, y) <==> links(
                    before,
                    x,
                    y,
                ) || (x == a@ && y == b@) by {
                    if x == a@ {
                        if y != b@ {
                            assert(named(set@, y) <==> named(had, y));
                        }
                    } else {
                        assert(value_of(t@, x) == value_of(mid, x));
                        assert(value_of(mid, x) == value_of(before, x));
                    }
                }
                assert forall|x: Seq<char>| #[trigger] named(t@, x) <==> named(before, x) || x
                    == a@ by {
                    if x != a@ {
                        assert(named(t@, x) <==> named(mid, x));
                        assert(named(mid, x) <==> named(before, x));
                    }
                }
            }
        },
        None => {
            let mut set: Names = Table::new();
            set.insert(b.to_owned(), ());
            t.insert(a.to_owned(), set);
            proof {
                assert forall|x: Seq<char>, y: Seq<char>| #[trigger] links(t@, x, y) <==> links(
                    before,
                    x,
                    y,
                ) || (x == a@ && y == b@) by {
                    if x != a@ {
                        assert(value_of(t@, x) == value_of(before, x));
                    } else if y != b@ {
                        let none = Seq::<(Seq<char>, ())>::empty();
                        assert(!named(none, y));
                    }
                }
            }
        },
    }
}

/// All pairs that a table links.
pub fn list_links(t: &Table<Names, false>) -> (r: Vec<(String, String)>)
    ensures
        forall|a: Seq<char>, b: Seq<char>| #[trigger]
            pair_views(r@).contains((a, b)) <==> links(t@, a, b),
{
    let mut r: Vec<(String, String)> = Vec::new();
    let total = t.len();
    let mut i: usize = 0;
    while i < total
        invariant
            i <= total == t@.len(),
            in_order(false, t@),
            forall|a: Seq<char>, b: Seq<char>| #[trigger]
                pair_views(r@).contains((a, b)) <==> exists|k: int|
                    0 <= k < i && #[trigger] t@[k].0 == a && named(t@[k].1@, b),
        decreases total - i,
    {
        let set = t.value(i);
        let size = set.len();
        let ghost base = pair_views(r@);
        let mut j: usize = 0;
        while j < size
            invariant
                i < total == t@.len(),
                *set == t@[i as int].1,
                j <= size == set@.len(),
                forall|a: Seq<char>, b: Seq<char>| #[trigger]
                    pair_views(r@).contains((a, b)) <==> base.contains((a, b)) || (a
                        == t@[i as int].0 && exists|k: int| 0 <= k < j && #[trigger] set@[k].0 == b),
            decreases size - j,
        {
            let ghost now = pair_views(r@);
            r.push((t.name(i).clone(), set.name(j).clone()));
            let ghost x = (t@[i as int].0, set@[j as int].0);
            assert(pair_views(r@) =~= now.push(x));
            assert forall|a: Seq<char>, b: Seq<char>| #[trigger] pair_views(r@).contains((a, b))
                <==> base.contains((a, b)) || (a == t@[i as int].0 && exists|k: int|
                0 <= k < j + 1 && #[trigger] set@[k].0 == b) by {
                pushed_contains(now, x, (a, b));
                if a == t@[i as int].0 && exists|k: int| 0 <= k < j + 1 && #[trigger] set@[k].0 == b {
                    let k = choose|k: int| 0 <= k < j + 1 && #[trigger] set@[k].0 == b;
                    if k < j {
                        assert(now.contains((a, b)));
                    }
                }
                if now.contains((a, b)) && !base.contains((a, b)) {
                    let k = choose|k: int| 0 <= k < j && #[trigger] set@[k].0 == b;
                    assert(set@[k].0 == b);
                }
                if (a, b) == x {
                    assert(set@[j as int].0 == b);
                }
            }
            j += 1;
        }
        assert forall|a: Seq<char>, b: Seq<char>| #[trigger] pair_views(r@).contains((a, b)) <==> exists|
            k: int,
        |
            0 <= k < i + 1 && #[trigger] t@[k].0 == a && named(t@[k].1@, b) by {
            if pair_views(r@).contains((a, b)) {
                if base.contains((a, b)) {
                    let k = choose|k: int|
                        0 <= k < i && #[trigger] t@[k].0 == a && named(t@[k].1@, b);
                    assert(t@[k].0 == a);
                } else {
                    let k = choose|k: int| 0 <= k < size && #[trigger] set@[k].0 == b;
                    assert(set@[k].0 == b);
                    assert(t@[i as int].0 == a && named(t@[i as int].1@, b));
                }
            }
            if exists|k: int| 0 <= k < i + 1 && #[trigger] t@[k].0 == a && named(t@[k].1@, b) {
                let k = choose|k: int| 0 <= k < i + 1 && #[trigger] t@[k].0 == a && named(t@[k].1@, b);
                if k < i {
                    assert(base.contains((a, b)));
                } else {
                    let m = choose|m: int| 0 <= m < set@.len() && #[trigger] set@[m].0 == b;
                    assert(set@[m].0 == b);
                }
            }
        }
        i += 1;
    }
    assert forall|a: Seq<char>, b: Seq<char>| #[trigger] pair_views(r@).contains((a, b)) <==> links(
        t@,
        a,
        b,
    ) by {
        if pair_views(r@).contains((a, b)) {
            let k = choose|k: int| 0 <= k < total && #[trigger] t@[k].0 == a && named(t@[k].1@, b);
            row_unique(false, t@, k);
        }
        if links(t@, a, b) {
            let k = row_of(t@, a)->0;
            assert(t@[k].0 == a && named(t@[k].1@, b));
        }
    }
    r
}

/// The views of a list of pairs of names.
pub open spec fn pair_views(v: Seq<(String, String)>) -> Seq<(Seq<char>, Seq<char>)> {
    v.map_values(|e: (String, String)| (e.0@, e.1@))
}

/// What a sequence holds once something was put at its end.
pub proof fn pushed_contains<T>(s: Seq<T>, x: T, y: T)
    ensures
        s.push(x).contains(y) <==> s.contains(y) || x == y,
{
    let t = s.push(x);
    if s.contains(y) {
        let i = choose|i: int| 0 <= i < s.len() && s[i] == y;
        assert(t[i] == y);
    }
    if x == y {
        assert(t[s.len() as int] == y);
    }
    if t.contains(y) {
        let i = choose|i: int| 0 <= i < t.len() && t[i] == y;
        if i < s.len() {
            assert(s[i] == y);
        }
    }
}

} // verus!
