//! How many files a node of a tree holds, how deep it nests, and when a tree is valid.
use vstd::prelude::*;

use crate::model::{Kind, Node};
use crate::moves::capped;
use crate::order::{in_order, named, row_of, row_unique, value_of};
use crate::text::{gather_contains, text_opt, texts};
use crate::tree::{max_upto, sum_upto, Measure, Tree};

verus! {

/// Whether `p` is a way down from node to node: each is a directory that lists the next as a child,
/// but for the last, which may be a file.
pub open spec fn way_down(t: Tree, p: Seq<Seq<char>>) -> bool {
    &&& p.len() > 0
    &&& forall|i: int| 0 <= i < p.len() ==> value_of(t.nodes@, #[trigger] p[i]) is Some
    &&& forall|i: int|
        0 <= i < p.len() - 1 ==> {
            let n = value_of(t.nodes@, #[trigger] p[i])->0;
            n.kind == Kind::Composite && exists|k: int|
                0 <= k < n.children@.len() && (#[trigger] n.children@[k])@ == p[i + 1]
        }
}

/// Whether some way down leads from a node to a file.
pub open spec fn holds_file(t: Tree, id: Seq<char>) -> bool {
    exists|p: Seq<Seq<char>>| #[trigger]
        way_down(t, p) && p[0] == id && value_of(t.nodes@, p.last())->0.kind == Kind::Atom
}

proof fn kid_listed(t: Tree, n: Node, x: Seq<char>)
    ensures
        t.kids(n).contains(x) <==> value_of(t.nodes@, x) is Some && exists|k: int|
            0 <= k < n.children@.len() && (#[trigger] n.children@[k])@ == x,
{
    let one = t.kid(n);
    gather_contains(n.children@.len() as int, one, x);
    if t.kids(n).contains(x) {
        let k = choose|k: int| 0 <= k < n.children@.len() && (#[trigger] one(k)).contains(x);
        let found = one(k);
        let j = choose|j: int| 0 <= j < found.len() && found[j] == x;
        assert(n.children@[k]@ == x);
        assert(named(t.nodes@, x));
    }
    if value_of(t.nodes@, x) is Some && exists|k: int|
        0 <= k < n.children@.len() && (#[trigger] n.children@[k])@ == x {
        let k = choose|k: int| 0 <= k < n.children@.len() && (#[trigger] n.children@[k])@ == x;
        assert(named(t.nodes@, x));
        assert(one(k)[0] == x);
        assert(one(k).contains(x));
    }
}

proof fn list_at(t: Tree, m: Measure, ids: Seq<Seq<char>>, n: nat, k: int)
    requires
        0 <= k <= ids.len(),
    ensures
        t.measure_list(m, ids, n, k).len() == k,
        forall|i: int|
            0 <= i < k ==> #[trigger] t.measure_list(m, ids, n, k)[i] == t.measure_at(m, ids[i], n) as usize,
    decreases k,
{
    if k > 0 {
        list_at(t, m, ids, n, k - 1);
    }
}

proof fn sum_holds(s: Seq<usize>, k: int)
    requires
        0 <= k <= s.len(),
    ensures
        0 <= sum_upto(s, k) <= usize::MAX,
        sum_upto(s, k) == 0 <==> forall|i: int| 0 <= i < k ==> #[trigger] s[i] == 0,
    decreases k,
{
    if k > 0 {
        sum_holds(s, k - 1);
    }
}

proof fn max_holds(s: Seq<usize>, k: int)
    requires
        0 <= k <= s.len(),
    ensures
        0 <= max_upto(s, k) <= usize::MAX,
        forall|i: int| 0 <= i < k ==> #[trigger] s[i] <= max_upto(s, k),
        max_upto(s, k) > 0 ==> exists|i: int| 0 <= i < k && #[trigger] s[i] == max_upto(s, k),
    decreases k,
{
    if k > 0 {
        max_holds(s, k - 1);
        if s[k - 1] == max_upto(s, k) {
        } else {
            if max_upto(s, k) > 0 {
                let i = choose|i: int| 0 <= i < k - 1 && #[trigger] s[i] == max_upto(s, k - 1);
                assert(s[i] == max_upto(s, k));
            }
        }
    }
}

proof fn measure_bounds(t: Tree, m: Measure, id: Seq<char>, n: nat)
    ensures
        0 <= t.measure_at(m, id, n) <= usize::MAX,
{
    if n > 0 && value_of(t.nodes@, id) is Some {
        let node = value_of(t.nodes@, id)->0;
        let ks = t.kids(node);
        let l = t.measure_list(m, ks, (n - 1) as nat, ks.len() as int);
        sum_holds(l, l.len() as int);
        max_holds(l, l.len() as int);
    }
}

proof fn way_goes_on(t: Tree, p: Seq<Seq<char>>, id: Seq<char>)
    requires
        way_down(t, p),
        value_of(t.nodes@, id) is Some,
        value_of(t.nodes@, id)->0.kind == Kind::Composite,
        exists|k: int|
            0 <= k < value_of(t.nodes@, id)->0.children@.len() && (
            #[trigger] value_of(t.nodes@, id)->0.children@[k])@ == p[0],
    ensures
        way_down(t, seq![id] + p),
        (seq![id] + p)[0] == id,
        (seq![id] + p).last() == p.last(),
{
    let q = seq![id] + p;
    assert forall|i: int| 0 <= i < q.len() implies value_of(t.nodes@, #[trigger] q[i]) is Some by {
        if i > 0 {
            assert(q[i] == p[i - 1]);
        }
    }
    assert forall|i: int| 0 <= i < q.len() - 1 implies {
        let n = value_of(t.nodes@, #[trigger] q[i])->0;
        n.kind == Kind::Composite && exists|k: int|
            0 <= k < n.children@.len() && (#[trigger] n.children@[k])@ == q[i + 1]
    } by {
        if i > 0 {
            assert(q[i] == p[i - 1] && q[i + 1] == p[i]);
        } else {
            assert(q[1] == p[0]);
        }
    }
}

proof fn way_behind(t: Tree, p: Seq<Seq<char>>)
    requires
        way_down(t, p),
        p.len() > 1,
    ensures
        way_down(t, p.skip(1)),
        p.skip(1)[0] == p[1],
        p.skip(1).last() == p.last(),
{
    let q = p.skip(1);
    assert forall|i: int| 0 <= i < q.len() implies value_of(t.nodes@, #[trigger] q[i]) is Some by {
        assert(q[i] == p[i + 1]);
    }
    assert forall|i: int| 0 <= i < q.len() - 1 implies {
        let n = value_of(t.nodes@, #[trigger] q[i])->0;
        n.kind == Kind::Composite && exists|k: int|
            0 <= k < n.children@.len() && (#[trigger] n.children@[k])@ == q[i + 1]
    } by {
        assert(q[i] == p[i + 1] && q[i + 1] == p[i + 2]);
    }
}

proof fn shallow_child(t: Tree, id: Seq<char>, n: nat, x: Seq<char>)
    requires
        t.shallow(id, n),
        value_of(t.nodes@, id) is Some,
        exists|k: int|
            0 <= k < value_of(t.nodes@, id)->0.children@.len() && (
            #[trigger] value_of(t.nodes@, id)->0.children@[k])@ == x,
    ensures
        n > 0,
        t.shallow(x, (n - 1) as nat),
{
    let node = value_of(t.nodes@, id)->0;
    let k = choose|k: int| 0 <= k < node.children@.len() && (#[trigger] node.children@[k])@ == x;
    assert(t.shallow(node.children@[k]@, (n - 1) as nat));
}

/// A node holds no files exactly where no way down leads from it to a file.
pub proof fn files_are_at_the_ends(t: Tree, id: Seq<char>, n: nat)
    requires
        t.shallow(id, n),
    ensures
        t.measure_at(Measure::Atoms, id, n) > 0 <==> holds_file(t, id),
    decreases n,
{
    let m = Measure::Atoms;
    match value_of(t.nodes@, id) {
        None => {
            if holds_file(t, id) {
                let p = choose|p: Seq<Seq<char>>| #[trigger]
                    way_down(t, p) && p[0] == id && value_of(t.nodes@, p.last())->0.kind
                        == Kind::Atom;
                assert(value_of(t.nodes@, p[0]) is Some);
            }
        },
        Some(node) => {
            if node.kind == Kind::Atom {
                let p = seq![id];
                assert(way_down(t, p));
                assert(p.last() == id);
            } else {
                let ks = t.kids(node);
                let below = (n - 1) as nat;
                let l = t.measure_list(m, ks, below, ks.len() as int);
                list_at(t, m, ks, below, ks.len() as int);
                sum_holds(l, l.len() as int);
                if t.measure_at(m, id, n) > 0 {
                    let i = choose|i: int| 0 <= i < l.len() && #[trigger] l[i] != 0;
                    let x = ks[i];
                    assert(ks.contains(x));
                    kid_listed(t, node, x);
                    shallow_child(t, id, n, x);
                    measure_bounds(t, m, x, below);
                    files_are_at_the_ends(t, x, below);
                    let p = choose|p: Seq<Seq<char>>| #[trigger]
                        way_down(t, p) && p[0] == x && value_of(t.nodes@, p.last())->0.kind
                            == Kind::Atom;
                    way_goes_on(t, p, id);
                    assert(way_down(t, seq![id] + p));
                }
                if holds_file(t, id) {
                    let p = choose|p: Seq<Seq<char>>| #[trigger]
                        way_down(t, p) && p[0] == id && value_of(t.nodes@, p.last())->0.kind
                            == Kind::Atom;
                    assert(p.len() > 1) by {
                        if p.len() == 1 {
                            assert(p.last() == id);
                        }
                    }
                    way_behind(t, p);
                    let x = p[1];
                    assert(value_of(t.nodes@, p[1]) is Some);
                    assert(value_of(t.nodes@, p[0])->0 == node);
                    kid_listed(t, node, x);
                    shallow_child(t, id, n, x);
                    assert(way_down(t, p.skip(1)));
                    files_are_at_the_ends(t, x, below);
                    measure_bounds(t, m, x, below);
                    let i = choose|i: int| 0 <= i < ks.len() && ks[i] == x;
                    assert(l[i] != 0);
                }
            }
        },
    }
}

/// A node nests as deep as the longest way down from it: no way is longer, and one is as long, as
/// far as the number can be told.
pub proof fn depth_is_the_longest_way(t: Tree, id: Seq<char>, n: nat, p: Seq<Seq<char>>)
    requires
        t.shallow(id, n),
    ensures
        way_down(t, p) && p[0] == id && p.len() <= usize::MAX ==> p.len() <= t.measure_at(
            Measure::Depth,
            id,
            n,
        ),
        value_of(t.nodes@, id) is Some && t.measure_at(Measure::Depth, id, n) < usize::MAX
            ==> exists|q: Seq<Seq<char>>| #[trigger]
            way_down(t, q) && q[0] == id && q.len() == t.measure_at(Measure::Depth, id, n),
    decreases n,
{
    let m = Measure::Depth;
    match value_of(t.nodes@, id) {
        None => {
            if way_down(t, p) && p[0] == id {
                assert(value_of(t.nodes@, p[0]) is Some);
            }
        },
        Some(node) => {
            let one = seq![id];
            assert(way_down(t, one));
            assert(one[0] == id);
            if node.kind == Kind::Atom {
                if way_down(t, p) && p[0] == id && p.len() > 1 {
                    assert(value_of(t.nodes@, p[0])->0.kind == Kind::Composite);
                }
            } else {
                let ks = t.kids(node);
                let below = (n - 1) as nat;
                let l = t.measure_list(m, ks, below, ks.len() as int);
                list_at(t, m, ks, below, ks.len() as int);
                max_holds(l, l.len() as int);
                let most = max_upto(l, l.len() as int);
                assert(t.measure_at(m, id, n) == capped(1 + most));
                if way_down(t, p) && p[0] == id && p.len() > 1 && p.len() <= usize::MAX {
                    way_behind(t, p);
                    let x = p[1];
                    assert(value_of(t.nodes@, p[1]) is Some);
                    assert(value_of(t.nodes@, p[0])->0 == node);
                    kid_listed(t, node, x);
                    shallow_child(t, id, n, x);
                    depth_is_the_longest_way(t, x, below, p.skip(1));
                    measure_bounds(t, m, x, below);
                    let i = choose|i: int| 0 <= i < ks.len() && ks[i] == x;
                    assert(l[i] <= most);
                }
                if t.measure_at(m, id, n) < usize::MAX {
                    if most == 0 {
                        assert(one.len() == 1);
                    } else {
                        let i = choose|i: int| 0 <= i < l.len() && #[trigger] l[i] == most;
                        let x = ks[i];
                        assert(ks.contains(x));
                        kid_listed(t, node, x);
                        shallow_child(t, id, n, x);
                        measure_bounds(t, m, x, below);
                        depth_is_the_longest_way(t, x, below, one);
                        let q = choose|q: Seq<Seq<char>>| #[trigger]
                            way_down(t, q) && q[0] == x && q.len() == t.measure_at(m, x, below);
                        way_goes_on(t, q, id);
                        assert(way_down(t, seq![id] + q));
                        assert((seq![id] + q).len() == 1 + most);
                    }
                }
            }
        },
    }
}

// ── when a tree is valid ───────────────────────────────────────────────────────────────

/// Whether a row of a tree is the node of an id.
pub open spec fn node_at(t: Tree, id: Seq<char>, i: int) -> bool {
    0 <= i < t.nodes@.len() && t.nodes@[i].0 == id
}

/// Whether an id has a node.
pub open spec fn there(t: Tree, id: Seq<char>) -> bool {
    exists|i: int| #[trigger] node_at(t, id, i)
}

/// Whether a node names an id as its parent, and the node of that id lists it as a child.
pub open spec fn at_home(t: Tree, n: Node, p: Seq<char>) -> bool {
    exists|j: int, k: int|
        #[trigger] node_at(t, p, j) && 0 <= k < t.nodes@[j].1.children@.len() && (
        #[trigger] t.nodes@[j].1.children@[k])@ == n.id@
}

/// Whether some node of an id names another id as its parent.
pub open spec fn names_parent(t: Tree, c: Seq<char>, id: Seq<char>) -> bool {
    exists|j: int| #[trigger]
        node_at(t, c, j) && t.nodes@[j].1.parent is Some && t.nodes@[j].1.parent->0@ == id
}

/// Whether `p` leads up from an id to the root: each names the next as its parent.
pub open spec fn leads_up(t: Tree, id: Seq<char>, p: Seq<Seq<char>>) -> bool {
    &&& p.len() > 0
    &&& p[0] == id
    &&& p.last() == t.root@
    &&& forall|i: int| 0 <= i < p.len() - 1 ==> names_parent(t, #[trigger] p[i], p[i + 1])
}

/// Whether a node lists another as what it depends on.
pub open spec fn lists_dependency(t: Tree, a: Seq<char>, b: Seq<char>) -> bool {
    exists|i: int, k: int, j: int|
        #[trigger] node_at(t, a, i) && 0 <= k < t.nodes@[i].1.depends_on@.len() && (
        #[trigger] t.nodes@[i].1.depends_on@[k])@ == b && #[trigger] node_at(t, b, j)
}

/// Whether `p` is a chain of dependencies that comes back to where it began.
pub open spec fn comes_back(t: Tree, p: Seq<Seq<char>>) -> bool {
    &&& p.len() >= 2
    &&& p[0] == p.last()
    &&& forall|i: int| 0 <= i < p.len() - 1 ==> lists_dependency(t, #[trigger] p[i], p[i + 1])
}

/// Whether a node is well placed: only the root has no parent, the parent lists it, its children name
/// it, what it depends on is there, and a way leads up from it to the root.
pub open spec fn well_placed(t: Tree, n: Node) -> bool {
    &&& n.parent is None <==> n.id@ == t.root@
    &&& n.parent is Some ==> at_home(t, n, n.parent->0@)
    &&& forall|k: int|
        0 <= k < n.children@.len() ==> names_parent(t, (#[trigger] n.children@[k])@, n.id@)
    &&& forall|k: int|
        0 <= k < n.depends_on@.len() ==> there(t, (#[trigger] n.depends_on@[k])@)
    &&& exists|p: Seq<Seq<char>>| #[trigger] leads_up(t, n.id@, p)
}

proof fn node_of(t: Tree, id: Seq<char>)
    requires
        in_order(false, t.nodes@),
    ensures
        forall|i: int| #[trigger] node_at(t, id, i) ==> value_of(t.nodes@, id) == Some(t.nodes@[i].1),
        value_of(t.nodes@, id) is Some <==> exists|i: int| #[trigger] node_at(t, id, i),
        named(t.nodes@, id) <==> value_of(t.nodes@, id) is Some,
{
    assert forall|i: int| #[trigger] node_at(t, id, i) implies value_of(t.nodes@, id) == Some(
        t.nodes@[i].1,
    ) by {
        row_unique(false, t.nodes@, i);
    }
    if value_of(t.nodes@, id) is Some {
        let i = row_of(t.nodes@, id)->0;
        assert(node_at(t, id, i));
    }
}

proof fn parent_is(t: Tree, c: Seq<char>, id: Seq<char>)
    requires
        in_order(false, t.nodes@),
    ensures
        names_parent(t, c, id) <==> (match value_of(t.nodes@, c) {
            Some(q) => text_opt(q.parent) == Some(id),
            None => false,
        }),
{
    node_of(t, c);
    if value_of(t.nodes@, c) is Some {
        let i = choose|i: int| #[trigger] node_at(t, c, i);
        assert(node_at(t, c, i));
    }
}

proof fn home_is(t: Tree, n: Node, p: Seq<char>)
    requires
        in_order(false, t.nodes@),
    ensures
        at_home(t, n, p) <==> (match value_of(t.nodes@, p) {
            Some(q) => texts(q.children@).contains(n.id@),
            None => false,
        }),
{
    node_of(t, p);
    if at_home(t, n, p) {
        let (j, k) = choose|j: int, k: int|
            #[trigger] node_at(t, p, j) && 0 <= k < t.nodes@[j].1.children@.len() && (
            #[trigger] t.nodes@[j].1.children@[k])@ == n.id@;
        assert(texts(t.nodes@[j].1.children@)[k] == n.id@);
    }
    if value_of(t.nodes@, p) is Some && texts(value_of(t.nodes@, p)->0.children@).contains(n.id@) {
        let j = choose|j: int| #[trigger] node_at(t, p, j);
        let cs = texts(t.nodes@[j].1.children@);
        let k = choose|k: int| 0 <= k < cs.len() && cs[k] == n.id@;
        assert(node_at(t, p, j) && t.nodes@[j].1.children@[k]@ == n.id@);
    }
}

proof fn up_along(t: Tree, id: Seq<char>, p: Seq<Seq<char>>, k: int)
    requires
        in_order(false, t.nodes@),
        leads_up(t, id, p),
        0 <= k < p.len(),
    ensures
        t.up(id, k as nat) == Some(p[k]),
    decreases k,
{
    if k > 0 {
        up_along(t, id, p, k - 1);
        assert(names_parent(t, p[k - 1], p[k - 1 + 1]));
        parent_is(t, p[k - 1], p[k]);
    }
}

proof fn up_is_some(t: Tree, id: Seq<char>, k: nat, i: nat)
    requires
        t.up(id, k) is Some,
        i <= k,
    ensures
        t.up(id, i) is Some,
    decreases k - i,
{
    if i < k {
        up_is_some(t, id, k, i + 1);
        assert(t.up(id, i + 1) is Some);
    }
}

proof fn rooted_is(t: Tree, id: Seq<char>)
    requires
        in_order(false, t.nodes@),
    ensures
        t.rooted(id) <==> exists|p: Seq<Seq<char>>| #[trigger] leads_up(t, id, p),
{
    if t.rooted(id) {
        let k = choose|k: nat| #[trigger] t.up(id, k) == Some(t.root@);
        let p = Seq::new(k + 1, |i: int| t.up(id, i as nat)->0);
        assert forall|i: int| 0 <= i < p.len() - 1 implies names_parent(t, #[trigger] p[i], p[i + 1]) by {
            up_is_some(t, id, k, i as nat);
            up_is_some(t, id, k, (i + 1) as nat);
            parent_is(t, p[i], p[i + 1]);
            assert(t.up(id, (i + 1) as nat) == Some(p[i + 1]));
        }
        assert(p[0] == t.up(id, 0)->0);
        assert(p.last() == t.up(id, k)->0);
        assert(leads_up(t, id, p));
    }
    if exists|p: Seq<Seq<char>>| #[trigger] leads_up(t, id, p) {
        let p = choose|p: Seq<Seq<char>>| #[trigger] leads_up(t, id, p);
        up_along(t, id, p, p.len() - 1);
    }
}

proof fn dependency_is(t: Tree, a: Seq<char>, b: Seq<char>)
    requires
        in_order(false, t.nodes@),
    ensures
        lists_dependency(t, a, b) <==> t.depends(a, b),
{
    node_of(t, a);
    node_of(t, b);
    if lists_dependency(t, a, b) {
        let (i, k, j) = choose|i: int, k: int, j: int|
            #[trigger] node_at(t, a, i) && 0 <= k < t.nodes@[i].1.depends_on@.len() && (
            #[trigger] t.nodes@[i].1.depends_on@[k])@ == b && #[trigger] node_at(t, b, j);
        assert(texts(t.nodes@[i].1.depends_on@)[k] == b);
    }
    if t.depends(a, b) {
        let i = choose|i: int| #[trigger] node_at(t, a, i);
        let j = choose|j: int| #[trigger] node_at(t, b, j);
        let ds = texts(t.nodes@[i].1.depends_on@);
        let k = choose|k: int| 0 <= k < ds.len() && ds[k] == b;
        assert(node_at(t, a, i) && t.nodes@[i].1.depends_on@[k]@ == b && node_at(t, b, j));
    }
}

proof fn cyclic_is(t: Tree)
    requires
        in_order(false, t.nodes@),
    ensures
        t.dep_cyclic() <==> exists|p: Seq<Seq<char>>| #[trigger] comes_back(t, p),
{
    if t.dep_cyclic() {
        let p = choose|p: Seq<Seq<char>>| #[trigger] t.dep_walk(p) && p.len() >= 2 && p[0] == p.last();
        assert forall|i: int| 0 <= i < p.len() - 1 implies lists_dependency(t, #[trigger] p[i], p[i + 1]) by {
            assert(t.depends(p[i], p[i + 1]));
            dependency_is(t, p[i], p[i + 1]);
        }
        assert(comes_back(t, p));
    }
    if exists|p: Seq<Seq<char>>| #[trigger] comes_back(t, p) {
        let p = choose|p: Seq<Seq<char>>| #[trigger] comes_back(t, p);
        assert forall|i: int| 0 <= i < p.len() - 1 implies t.depends(#[trigger] p[i], p[i + 1]) && named(
            t.nodes@,
            p[i],
        ) by {
            assert(lists_dependency(t, p[i], p[i + 1]));
            dependency_is(t, p[i], p[i + 1]);
            node_of(t, p[i]);
        }
        assert forall|i: int| 0 <= i < p.len() implies named(t.nodes@, #[trigger] p[i]) by {
            if i == p.len() - 1 {
                assert(named(t.nodes@, p[0]));
            }
        }
        assert(t.dep_walk(p));
    }
}

proof fn node_sound(t: Tree, i: int)
    requires
        in_order(false, t.nodes@),
        t.keyed(),
        0 <= i < t.nodes@.len(),
        well_placed(t, t.nodes@[i].1),
    ensures
        ({
            let n = t.nodes@[i].1;
            &&& n.parent is Some ==> (match value_of(t.nodes@, n.parent->0@) {
                Some(q) => texts(q.children@).contains(n.id@),
                None => false,
            })
            &&& forall|k: int|
                0 <= k < n.children@.len() ==> (match value_of(t.nodes@, #[trigger] n.children@[k]@) {
                    Some(q) => text_opt(q.parent) == Some(n.id@),
                    None => false,
                })
            &&& forall|k: int|
                0 <= k < n.depends_on@.len() ==> named(t.nodes@, #[trigger] n.depends_on@[k]@)
            &&& t.rooted(n.id@)
        }),
{
    let n = t.nodes@[i].1;
    if n.parent is Some {
        home_is(t, n, n.parent->0@);
    }
    assert forall|k: int| 0 <= k < n.children@.len() implies (match value_of(
        t.nodes@,
        #[trigger] n.children@[k]@,
    ) {
        Some(q) => text_opt(q.parent) == Some(n.id@),
        None => false,
    }) by {
        parent_is(t, n.children@[k]@, n.id@);
    }
    assert forall|k: int| 0 <= k < n.depends_on@.len() implies named(
        t.nodes@,
        #[trigger] n.depends_on@[k]@,
    ) by {
        assert(there(t, n.depends_on@[k]@));
        node_of(t, n.depends_on@[k]@);
    }
    rooted_is(t, n.id@);
}

/// Nothing is said against a tree if and only if it has a root, every node of it is well placed, and
/// no chain of dependencies comes back to where it began.
pub proof fn unfaulted_exactly_where_well_placed(t: Tree, errs: Seq<Seq<char>>)
    requires
        t.keyed(),
        in_order(false, t.nodes@),
        t.violations(errs),
    ensures
        errs.len() == 0 <==> {
            &&& exists|i: int| #[trigger] node_at(t, t.root@, i)
            &&& forall|i: int| 0 <= i < t.nodes@.len() ==> well_placed(t, (#[trigger] t.nodes@[i]).1)
            &&& forall|p: Seq<Seq<char>>| !#[trigger] comes_back(t, p)
        },
{
    cyclic_is(t);
    node_of(t, t.root@);
    if errs.len() == 0 {
        t.clean_is_sound(errs);
        assert forall|i: int| 0 <= i < t.nodes@.len() implies well_placed(
            t,
            (#[trigger] t.nodes@[i]).1,
        ) by {
            let n = t.nodes@[i].1;
            if n.parent is Some {
                home_is(t, n, n.parent->0@);
            }
            assert forall|k: int| 0 <= k < n.children@.len() implies names_parent(
                t,
                (#[trigger] n.children@[k])@,
                n.id@,
            ) by {
                parent_is(t, n.children@[k]@, n.id@);
            }
            assert forall|k: int| 0 <= k < n.depends_on@.len() implies there(
                t,
                (#[trigger] n.depends_on@[k])@,
            ) by {
                node_of(t, n.depends_on@[k]@);
                assert(named(t.nodes@, n.depends_on@[k]@));
            }
            rooted_is(t, n.id@);
        }
    }
    if (exists|i: int| #[trigger] node_at(t, t.root@, i)) && (forall|i: int|
        0 <= i < t.nodes@.len() ==> well_placed(t, (#[trigger] t.nodes@[i]).1)) && (forall|
        p: Seq<Seq<char>>,
    | !#[trigger] comes_back(t, p)) {
        assert forall|i: int| 0 <= i < t.nodes@.len() implies t.rooted(
            (#[trigger] t.nodes@[i]).1.id@,
        ) by {
            node_sound(t, i);
        }
        all_sound(t);
        t.sound_is_clean(errs);
    }
}

proof fn all_sound(t: Tree)
    requires
        t.keyed(),
        in_order(false, t.nodes@),
        exists|i: int| #[trigger] node_at(t, t.root@, i),
        forall|i: int| 0 <= i < t.nodes@.len() ==> well_placed(t, (#[trigger] t.nodes@[i]).1),
    ensures
        t.sound(),
{
    node_of(t, t.root@);
    assert forall|i: int| 0 <= i < t.nodes@.len() implies {
        let n = (#[trigger] t.nodes@[i]).1;
        &&& n.parent is None <==> n.id@ == t.root@
        &&& n.parent is Some ==> (match value_of(t.nodes@, n.parent->0@) {
            Some(q) => texts(q.children@).contains(n.id@),
            None => false,
        })
        &&& forall|k: int|
            0 <= k < n.children@.len() ==> (match value_of(t.nodes@, #[trigger] n.children@[k]@) {
                Some(q) => text_opt(q.parent) == Some(n.id@),
                None => false,
            })
        &&& forall|k: int|
            0 <= k < n.depends_on@.len() ==> named(t.nodes@, #[trigger] n.depends_on@[k]@)
        &&& t.rooted(n.id@)
    } by {
        node_sound(t, i);
    }
}

} // verus!
