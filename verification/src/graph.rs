//! Directed graphs whose nodes are numbered from zero: walks, cycles and reachability.
use vstd::prelude::*;

verus! {

/// Every edge leads to a node of the graph.
pub open spec fn well_formed(g: Seq<Vec<usize>>) -> bool {
    forall|u: int, k: int| 0 <= u < g.len() && 0 <= k < g[u]@.len() ==> (#[trigger] g[u]@[k]) < g.len()
}

/// Whether an edge leads from `u` to `v`.
pub open spec fn edge(g: Seq<Vec<usize>>, u: int, v: int) -> bool {
    0 <= u < g.len() && exists|k: int| 0 <= k < g[u]@.len() && #[trigger] g[u]@[k] == v
}

/// Whether `p` is a walk: nodes, each with an edge to the next.
pub open spec fn walk(g: Seq<Vec<usize>>, p: Seq<usize>) -> bool {
    &&& p.len() >= 1
    &&& forall|i: int| 0 <= i < p.len() ==> (#[trigger] p[i]) < g.len()
    &&& forall|i: int| 0 <= i < p.len() - 1 ==> edge(g, #[trigger] p[i] as int, p[i + 1] as int)
}

/// Whether some walk along at least one edge comes back to where it began.
pub open spec fn cyclic(g: Seq<Vec<usize>>) -> bool {
    exists|p: Seq<usize>| #[trigger] walk(g, p) && p.len() >= 2 && p[0] == p.last()
}

/// Whether `p` is a walk whose last node occurred before on it.
pub open spec fn closes(g: Seq<Vec<usize>>, p: Seq<usize>) -> bool {
    walk(g, p) && exists|i: int| 0 <= i < p.len() - 1 && #[trigger] p[i] == p.last()
}

/// Whether a walk leads from `u` to `v`; every node reaches itself.
pub open spec fn reaches(g: Seq<Vec<usize>>, u: int, v: int) -> bool {
    exists|p: Seq<usize>| #[trigger] walk(g, p) && p[0] == u && p.last() == v
}

/// Whether some walk from `u` closes.
pub open spec fn leads(g: Seq<Vec<usize>>, u: int) -> bool {
    exists|p: Seq<usize>| #[trigger] closes(g, p) && p[0] == u
}

/// Whether `v` is the first target of `u` from which a walk closes.
pub open spec fn first_leading(g: Seq<Vec<usize>>, u: int, v: int) -> bool {
    exists|k: int|
        0 <= k < g[u]@.len() && #[trigger] g[u]@[k] == v && leads(g, v) && forall|j: int|
            0 <= j < k ==> !leads(g, #[trigger] g[u]@[j] as int)
}

/// Whether `p` is the first walk that closes: it begins at the first node from which one does, goes
/// on to the first target from which one does, and ends where it comes to a node again.
pub open spec fn first_closing(g: Seq<Vec<usize>>, p: Seq<usize>) -> bool {
    &&& closes(g, p)
    &&& p.drop_last().no_duplicates()
    &&& forall|u: int| 0 <= u < p[0] ==> !#[trigger] leads(g, u)
    &&& forall|i: int|
        0 <= i < p.len() - 1 ==> first_leading(g, #[trigger] p[i] as int, p[i + 1] as int)
}

/// A walk that closes contains a cycle.
pub proof fn closes_cyclic(g: Seq<Vec<usize>>, p: Seq<usize>)
    requires
        closes(g, p),
    ensures
        cyclic(g),
{
    let i = choose|i: int| 0 <= i < p.len() - 1 && #[trigger] p[i] == p.last();
    let q = p.skip(i);
    assert forall|j: int| 0 <= j < q.len() - 1 implies edge(
        g,
        #[trigger] q[j] as int,
        q[j + 1] as int,
    ) by {
        assert(q[j] == p[i + j]);
        assert(edge(g, p[i + j] as int, p[i + j + 1] as int));
    }
    assert(walk(g, q));
}

/// Reaching carries on along an edge.
pub proof fn reaches_step(g: Seq<Vec<usize>>, u: int, v: int, w: int)
    requires
        reaches(g, u, v),
        edge(g, v, w),
        0 <= w < g.len() <= usize::MAX,
    ensures
        reaches(g, u, w),
{
    let p = choose|p: Seq<usize>| #[trigger] walk(g, p) && p[0] == u && p.last() == v;
    let q = p.push(w as usize);
    assert forall|i: int| 0 <= i < q.len() - 1 implies edge(
        g,
        #[trigger] q[i] as int,
        q[i + 1] as int,
    ) by {
        if i < p.len() - 1 {
            assert(edge(g, p[i] as int, p[i + 1] as int));
        }
    }
    assert(walk(g, q));
}

/// A node reaches itself.
pub proof fn reaches_self(g: Seq<Vec<usize>>, u: int)
    requires
        0 <= u < g.len() <= usize::MAX,
    ensures
        reaches(g, u, u),
{
    let p = seq![u as usize];
    assert(walk(g, p));
}

// ── finding a cycle ────────────────────────────────────────────────────────────────────

/// How many nodes have not been visited.
spec fn whites(c: Seq<u8>) -> nat
    decreases c.len(),
{
    if c.len() == 0 {
        0
    } else {
        whites(c.drop_last()) + (if c.last() == 0 {
            1nat
        } else {
            0nat
        })
    }
}

proof fn whites_fewer(a: Seq<u8>, b: Seq<u8>)
    requires
        a.len() == b.len(),
        forall|i: int| 0 <= i < a.len() && #[trigger] b[i] == 0 ==> a[i] == 0,
    ensures
        whites(b) <= whites(a),
        (exists|i: int| 0 <= i < a.len() && a[i] == 0 && #[trigger] b[i] != 0) ==> whites(b) < whites(
            a,
        ),
    decreases a.len(),
{
    if a.len() > 0 {
        assert forall|i: int| 0 <= i < a.len() - 1 && #[trigger] b.drop_last()[i] == 0 implies a.drop_last()[i]
            == 0 by {
            assert(b[i] == 0);
        }
        whites_fewer(a.drop_last(), b.drop_last());
        if exists|i: int| 0 <= i < a.len() && a[i] == 0 && #[trigger] b[i] != 0 {
            let i = choose|i: int| 0 <= i < a.len() && a[i] == 0 && #[trigger] b[i] != 0;
            if i < a.len() - 1 {
                assert(b.drop_last()[i] != 0);
            }
        }
        assert(b[b.len() - 1] == 0 ==> a[a.len() - 1] == 0);
    }
}

/// Every edge out of a finished node leads to one that was finished earlier.
#[verifier::opaque]
spec fn settled(g: Seq<Vec<usize>>, done: Seq<usize>) -> bool {
    forall|i: int, v: int|
        0 <= i < done.len() && #[trigger] edge(g, done[i] as int, v) ==> exists|j: int|
            0 <= j < i && #[trigger] done[j] == v
}

/// What holds while the graph is searched: unvisited nodes are marked 0, those on the path 1,
/// finished ones 2.
spec fn searching(g: Seq<Vec<usize>>, marks: Seq<u8>, path: Seq<usize>, done: Seq<usize>) -> bool {
    &&& marks.len() == g.len()
    &&& forall|u: int|
        0 <= u < g.len() ==> (#[trigger] marks[u] == 0 || marks[u] == 1 || marks[u] == 2)
    &&& forall|u: int| 0 <= u < g.len() && #[trigger] marks[u] == 1 ==> path.contains(u as usize)
    &&& forall|i: int| 0 <= i < path.len() ==> (#[trigger] path[i]) < g.len() && marks[path[i] as int] == 1
    &&& forall|u: int| 0 <= u < g.len() && #[trigger] marks[u] == 2 ==> done.contains(u as usize)
    &&& forall|i: int| 0 <= i < done.len() ==> (#[trigger] done[i]) < g.len() && marks[done[i] as int] == 2
    &&& forall|i: int|
        0 <= i < path.len() - 1 ==> edge(g, #[trigger] path[i] as int, path[i + 1] as int)
    &&& settled(g, done)
    &&& path.no_duplicates()
    &&& traced(g, path)
}

/// Whether `v` is a target of `u`, and from none of those before it a walk closes.
spec fn passed(g: Seq<Vec<usize>>, u: int, v: int) -> bool {
    exists|k: int|
        0 <= k < g[u]@.len() && #[trigger] g[u]@[k] == v && forall|j: int|
            0 <= j < k ==> !leads(g, #[trigger] g[u]@[j] as int)
}

/// Whether every step of a walk leaves out only targets from which no walk closes.
#[verifier::opaque]
spec fn traced(g: Seq<Vec<usize>>, p: Seq<usize>) -> bool {
    forall|i: int| 0 <= i < p.len() - 1 ==> passed(g, #[trigger] p[i] as int, p[i + 1] as int)
}

proof fn traced_more(g: Seq<Vec<usize>>, p: Seq<usize>, v: usize)
    requires
        traced(g, p),
        p.len() > 0 ==> passed(g, p.last() as int, v as int),
    ensures
        traced(g, p.push(v)),
{
    reveal(traced);
    let q = p.push(v);
    assert forall|i: int| 0 <= i < q.len() - 1 implies passed(g, #[trigger] q[i] as int, q[i + 1] as int) by {
        if i < p.len() - 1 {
            assert(passed(g, p[i] as int, p[i + 1] as int));
        }
    }
}

/// From every node of a walk that closes, a walk closes.
proof fn closing_leads(g: Seq<Vec<usize>>, p: Seq<usize>, j: int)
    requires
        closes(g, p),
        0 <= j < p.len(),
    ensures
        leads(g, p[j] as int),
{
    let m = choose|m: int| 0 <= m < p.len() - 1 && #[trigger] p[m] == p.last();
    if j <= m {
        let q = p.skip(j);
        assert forall|i: int| 0 <= i < q.len() - 1 implies edge(g, #[trigger] q[i] as int, q[i + 1] as int) by {
            assert(edge(g, p[j + i] as int, p[j + i + 1] as int));
        }
        assert(walk(g, q));
        assert(q[m - j] == q.last());
        assert(closes(g, q) && q[0] == p[j]);
    } else {
        let a = p.skip(j);
        let b = p.subrange(m + 1, j + 1);
        let q = a + b;
        assert forall|i: int| 0 <= i < q.len() implies (#[trigger] q[i]) < g.len() by {
            if i < a.len() {
                assert(q[i] == p[j + i]);
            } else {
                assert(q[i] == p[m + 1 + i - a.len()]);
            }
        }
        assert forall|i: int| 0 <= i < q.len() - 1 implies edge(g, #[trigger] q[i] as int, q[i + 1] as int) by {
            if i < a.len() - 1 {
                assert(edge(g, p[j + i] as int, p[j + i + 1] as int));
            } else if i == a.len() - 1 {
                assert(q[i] == p[m]);
                assert(edge(g, p[m] as int, p[m + 1] as int));
            } else {
                let o = m + 1 + i - a.len();
                assert(edge(g, p[o] as int, p[o + 1] as int));
            }
        }
        assert(walk(g, q));
        assert(q.last() == p[j]);
        assert(q[0] == p[j]);
        assert(closes(g, q));
    }
}

/// From a finished node no walk closes.
proof fn done_leads_not(g: Seq<Vec<usize>>, done: Seq<usize>, u: usize)
    requires
        settled(g, done),
        done.contains(u),
    ensures
        !leads(g, u as int),
{
    if leads(g, u as int) {
        let p = choose|p: Seq<usize>| #[trigger] closes(g, p) && p[0] == u as int;
        let i = choose|i: int| 0 <= i < done.len() && done[i] == u;
        let m = choose|m: int| 0 <= m < p.len() - 1 && #[trigger] p[m] == p.last();
        let k = if m == 0 {
            i
        } else {
            walk_descends(g, done, p, i, m)
        };
        let q = p.skip(m);
        assert forall|i: int| 0 <= i < q.len() - 1 implies edge(g, #[trigger] q[i] as int, q[i + 1] as int) by {
            assert(edge(g, p[m + i] as int, p[m + i + 1] as int));
        }
        assert(walk(g, q));
        settled_acyclic(g, done, q, k);
    }
}

/// A walk that leads to a node on it closes.
proof fn back_edge_closes(g: Seq<Vec<usize>>, path: Seq<usize>, v: usize)
    requires
        path.len() > 0,
        path.contains(v),
        v < g.len(),
        forall|i: int| 0 <= i < path.len() ==> (#[trigger] path[i]) < g.len(),
        forall|i: int|
            0 <= i < path.len() - 1 ==> edge(g, #[trigger] path[i] as int, path[i + 1] as int),
        edge(g, path.last() as int, v as int),
    ensures
        closes(g, path.push(v)),
{
    let p = path.push(v);
    let i = choose|i: int| 0 <= i < path.len() && path[i] == v;
    assert(p[i] == v);
    assert forall|i: int| 0 <= i < p.len() - 1 implies edge(g, #[trigger] p[i] as int, p[i + 1] as int) by {
        if i < path.len() - 1 {
            assert(edge(g, path[i] as int, path[i + 1] as int));
        }
    }
}

proof fn settled_more(g: Seq<Vec<usize>>, done: Seq<usize>, u: usize, marks: Seq<u8>)
    requires
        settled(g, done),
        u < g.len(),
        marks.len() == g.len(),
        well_formed(g),
        forall|w: int| 0 <= w < g.len() && #[trigger] marks[w] == 2 ==> done.contains(w as usize),
        forall|j: int| 0 <= j < g[u as int]@.len() ==> marks[#[trigger] g[u as int]@[j] as int] == 2,
    ensures
        settled(g, done.push(u)),
{
    reveal(settled);
    let now = done.push(u);
    assert forall|i: int, v: int|
        0 <= i < now.len() && #[trigger] edge(g, now[i] as int, v) implies exists|j: int|
        0 <= j < i && #[trigger] now[j] == v by {
        if i < done.len() {
            assert(edge(g, done[i] as int, v));
            let j = choose|j: int| 0 <= j < i && #[trigger] done[j] == v;
            assert(now[j] == v);
        } else {
            let m = choose|m: int| 0 <= m < g[u as int]@.len() && #[trigger] g[u as int]@[m] == v;
            assert(marks[v] == 2);
            let j = choose|j: int| 0 <= j < done.len() && done[j] == v as usize;
            assert(now[j] == v);
        }
    }
}

/// Whether the marks of visited nodes are kept.
spec fn kept(a: Seq<u8>, b: Seq<u8>) -> bool {
    a.len() == b.len() && forall|i: int| 0 <= i < a.len() && #[trigger] a[i] != 0 ==> b[i] == a[i]
}

proof fn kept_further(a: Seq<u8>, b: Seq<u8>, c: Seq<u8>)
    requires
        kept(a, b),
        kept(b, c),
    ensures
        kept(a, c),
{
    assert forall|i: int| 0 <= i < a.len() && #[trigger] a[i] != 0 implies c[i] == a[i] by {
        assert(b[i] != 0);
    }
}

/// Once a node is visited, fewer are left.
proof fn fewer_left(a: Seq<u8>, b: Seq<u8>, u: int)
    requires
        0 <= u < a.len(),
        a[u] == 0,
        kept(a.update(u, 1), b),
    ensures
        whites(b) < whites(a),
{
    let c = a.update(u, 1);
    assert(c[u] != 0);
    assert(b[u] != 0);
    assert forall|i: int| 0 <= i < a.len() && #[trigger] b[i] == 0 implies a[i] == 0 by {
        if a[i] != 0 {
            assert(c[i] != 0);
        }
    }
    whites_fewer(a, b);
}

/// Follows an edge from the last node of the path.
fn follow(
    g: &Vec<Vec<usize>>,
    v: usize,
    marks: &mut Vec<u8>,
    path: &mut Vec<usize>,
    done: &mut Vec<usize>,
) -> (found: bool)
    requires
        well_formed(g@),
        v < g.len(),
        searching(g@, old(marks)@, old(path)@, old(done)@),
        old(path)@.len() > 0,
        edge(g@, old(path)@.last() as int, v as int),
        passed(g@, old(path)@.last() as int, v as int),
    ensures
        found ==> closes(g@, final(path)@) && final(path)@.len() > old(path)@.len() && old(path)@
            =~= final(path)@.take(old(path)@.len() as int) && traced(g@, final(path)@)
            && final(path)@.drop_last().no_duplicates(),
        !found ==> {
            &&& searching(g@, final(marks)@, final(path)@, final(done)@)
            &&& final(path)@ == old(path)@
            &&& final(marks)@[v as int] == 2
            &&& kept(old(marks)@, final(marks)@)
        },
    decreases whites(old(marks)@), 1int,
{
    if marks[v] == 1 {
        let ghost before = path@;
        path.push(v);
        proof {
            back_edge_closes(g@, before, v);
            traced_more(g@, before, v);
            assert(path@.take(before.len() as int) =~= before);
            assert(path@.drop_last() =~= before);
        }
        return true;
    }
    if marks[v] == 0 {
        return visit(g, v, marks, path, done);
    }
    false
}

fn visit(
    g: &Vec<Vec<usize>>,
    u: usize,
    marks: &mut Vec<u8>,
    path: &mut Vec<usize>,
    done: &mut Vec<usize>,
) -> (found: bool)
    requires
        well_formed(g@),
        u < g.len(),
        searching(g@, old(marks)@, old(path)@, old(done)@),
        old(marks)@[u as int] == 0,
        old(path)@.len() > 0 ==> edge(g@, old(path)@.last() as int, u as int) && passed(
            g@,
            old(path)@.last() as int,
            u as int,
        ),
    ensures
        found ==> closes(g@, final(path)@) && final(path)@.len() > old(path)@.len() && old(path)@
            =~= final(path)@.take(old(path)@.len() as int) && final(path)@[old(path)@.len() as int]
            == u && traced(g@, final(path)@) && final(path)@.drop_last().no_duplicates(),
        !found ==> {
            &&& searching(g@, final(marks)@, final(path)@, final(done)@)
            &&& final(path)@ == old(path)@
            &&& final(marks)@[u as int] == 2
            &&& final(marks)@.len() == old(marks)@.len()
            &&& kept(old(marks)@, final(marks)@)
        },
    decreases whites(old(marks)@), 0int,
{
    let ghost marks0 = marks@;
    let ghost path0 = path@;
    marks.set(u, 1);
    path.push(u);
    proof {
        assert forall|w: int| 0 <= w < g.len() && #[trigger] marks@[w] == 1 implies path@.contains(
            w as usize,
        ) by {
            if w == u {
                assert(path@[path0.len() as int] == u);
            } else {
                assert(marks0[w] == 1);
                let i = choose|i: int| 0 <= i < path0.len() && path0[i] == w as usize;
                assert(path@[i] == w as usize);
            }
        }
        assert forall|w: int| 0 <= w < g.len() && #[trigger] marks@[w] == 2 implies done@.contains(
            w as usize,
        ) by {
            assert(marks0[w] == 2);
        }
        assert forall|i: int| 0 <= i < path@.len() - 1 implies edge(
            g@,
            #[trigger] path@[i] as int,
            path@[i + 1] as int,
        ) by {
            if i < path0.len() - 1 {
                assert(edge(g@, path0[i] as int, path0[i + 1] as int));
            }
        }
        traced_more(g@, path0, u);
        assert(path@.no_duplicates()) by {
            assert forall|i: int| 0 <= i < path0.len() implies #[trigger] path0[i] != u by {
                assert(marks0[path0[i] as int] == 1);
            }
        }
        assert(searching(g@, marks@, path@, done@));
    }
    let ghost path1 = path@;
    let ghost marks1 = marks@;
    let mut k: usize = 0;
    while k < g[u].len()
        invariant
            k <= g@[u as int]@.len(),
            well_formed(g@),
            u < g.len(),
            searching(g@, marks@, path@, done@),
            path@ == path1,
            path1 == path0.push(u),
            marks0 == old(marks)@,
            path0 == old(path)@,
            marks1 == marks0.update(u as int, 1),
            marks0.len() == g.len(),
            marks0[u as int] == 0,
            traced(g@, path0),
            path0.no_duplicates(),
            kept(marks1, marks@),
            forall|j: int| 0 <= j < k ==> marks@[#[trigger] g@[u as int]@[j] as int] == 2,
        decreases g@[u as int]@.len() - k,
    {
        let v = g[u][k];
        let ghost marks2 = marks@;
        proof {
            assert(edge(g@, u as int, v as int));
            fewer_left(marks0, marks@, u as int);
            assert forall|j: int| 0 <= j < k implies !leads(
                g@,
                #[trigger] g@[u as int]@[j] as int,
            ) by {
                done_leads_not(g@, done@, g@[u as int]@[j]);
            }
            assert(g@[u as int]@[k as int] == v);
            assert(passed(g@, u as int, v as int));
        }
        if follow(g, v, marks, path, done) {
            proof {
                assert(path@.take(path0.len() as int) =~= path1.take(path0.len() as int));
                assert(path1.take(path0.len() as int) =~= path0);
                assert(path@[path0.len() as int] == path@.take(path1.len() as int)[path0.len() as int]);
            }
            return true;
        }
        proof {
            kept_further(marks1, marks2, marks@);
            assert forall|j: int| 0 <= j < k implies marks@[#[trigger] g@[u as int]@[j] as int] == 2 by {
                assert(marks2[g@[u as int]@[j] as int] == 2);
            }
        }
        k += 1;
    }
    let ghost marks3 = marks@;
    let ghost done3 = done@;
    path.pop();
    marks.set(u, 2);
    done.push(u);
    proof {
        assert(path@ =~= path0);
        assert forall|w: int| 0 <= w < g.len() && #[trigger] marks@[w] == 1 implies path@.contains(
            w as usize,
        ) by {
            assert(marks3[w] == 1);
            let i = choose|i: int| 0 <= i < path1.len() && path1[i] == w as usize;
            assert(path@[i] == w as usize);
        }
        assert forall|i: int| 0 <= i < path@.len() implies (#[trigger] path@[i]) < g.len()
            && marks@[path@[i] as int] == 1 by {
            assert(path1[i] == path@[i]);
            assert(marks0[path0[i] as int] == 1);
        }
        assert forall|w: int| 0 <= w < g.len() && #[trigger] marks@[w] == 2 implies done@.contains(
            w as usize,
        ) by {
            if w == u {
                assert(done@[done3.len() as int] == u);
            } else {
                assert(marks3[w] == 2);
                let i = choose|i: int| 0 <= i < done3.len() && done3[i] == w as usize;
                assert(done@[i] == w as usize);
            }
        }
        settled_more(g@, done3, u, marks3);
        assert(searching(g@, marks@, path@, done@));
    }
    false
}

proof fn walk_descends(g: Seq<Vec<usize>>, done: Seq<usize>, p: Seq<usize>, i: int, k: int) -> (j: int)
    requires
        settled(g, done),
        walk(g, p),
        0 <= i < done.len(),
        done[i] == p[0],
        1 <= k < p.len(),
    ensures
        0 <= j < i,
        done[j] == p[k],
    decreases k,
{
    reveal(settled);
    assert(edge(g, p[k - 1] as int, p[k] as int));
    if k == 1 {
        assert(edge(g, done[i] as int, p[1] as int));
        choose|j: int| 0 <= j < i && #[trigger] done[j] == p[1] as int
    } else {
        let m = walk_descends(g, done, p, i, k - 1);
        assert(edge(g, done[m] as int, p[k] as int));
        choose|j: int| 0 <= j < m && #[trigger] done[j] == p[k] as int
    }
}

proof fn settled_acyclic(g: Seq<Vec<usize>>, done: Seq<usize>, p: Seq<usize>, i: int)
    requires
        settled(g, done),
        walk(g, p),
        p.len() >= 2,
        0 <= i < done.len(),
        done[i] == p[0],
    ensures
        p[0] != p.last(),
    decreases i,
{
    if p[0] == p.last() {
        let j = walk_descends(g, done, p, i, p.len() - 1);
        settled_acyclic(g, done, p, j);
    }
}

proof fn first_found(g: Seq<Vec<usize>>, p: Seq<usize>)
    requires
        closes(g, p),
        traced(g, p),
        p.drop_last().no_duplicates(),
        forall|u: int| 0 <= u < p[0] ==> !#[trigger] leads(g, u),
    ensures
        first_closing(g, p),
{
    reveal(traced);
    assert forall|i: int| 0 <= i < p.len() - 1 implies first_leading(
        g,
        #[trigger] p[i] as int,
        p[i + 1] as int,
    ) by {
        assert(passed(g, p[i] as int, p[i + 1] as int));
        closing_leads(g, p, i + 1);
    }
}

/// The first walk that closes, where the graph has one: depth first from node 0 on, along the edges
/// in their order.
pub fn find_cycle(g: &Vec<Vec<usize>>) -> (r: Option<Vec<usize>>)
    requires
        well_formed(g@),
    ensures
        match r {
            Some(p) => first_closing(g@, p@) && cyclic(g@),
            None => !cyclic(g@),
        },
{
    let mut marks: Vec<u8> = Vec::new();
    let mut path: Vec<usize> = Vec::new();
    let mut done: Vec<usize> = Vec::new();
    while marks.len() < g.len()
        invariant
            marks.len() <= g.len(),
            forall|i: int| 0 <= i < marks.len() ==> marks@[i] == 0,
        decreases g.len() - marks.len(),
    {
        marks.push(0);
    }
    let mut u: usize = 0;
    assert(settled(g@, done@)) by {
        reveal(settled);
    }
    assert(traced(g@, path@)) by {
        reveal(traced);
    }
    while u < g.len()
        invariant
            u <= g.len(),
            well_formed(g@),
            path@.len() == 0,
            searching(g@, marks@, path@, done@),
            forall|i: int| 0 <= i < u ==> #[trigger] marks@[i] == 2,
        decreases g.len() - u,
    {
        let ghost before = marks@;
        let ghost done0 = done@;
        if marks[u] == 0 {
            if visit(g, u, &mut marks, &mut path, &mut done) {
                proof {
                    closes_cyclic(g@, path@);
                    assert forall|w: int| 0 <= w < u implies !#[trigger] leads(g@, w) by {
                        assert(before[w] == 2);
                        done_leads_not(g@, done0, w as usize);
                    }
                    first_found(g@, path@);
                }
                return Some(path);
            }
        }
        assert forall|i: int| 0 <= i < u + 1 implies #[trigger] marks@[i] == 2 by {
            if i < u {
                assert(before[i] == 2);
            } else if before[i] == 1 {
                assert(path@.contains(i as usize));
            }
        }
        u += 1;
    }
    proof {
        if cyclic(g@) {
            let p = choose|p: Seq<usize>| #[trigger]
                walk(g@, p) && p.len() >= 2 && p[0] == p.last();
            assert(marks@[p[0] as int] == 2);
            let i = choose|i: int| 0 <= i < done@.len() && done@[i] == p[0];
            settled_acyclic(g@, done@, p, i);
        }
    }
    None
}

// ── reachability ───────────────────────────────────────────────────────────────────────

/// What a walk from a closed set of nodes arrives at is in the set.
proof fn closed_walk(g: Seq<Vec<usize>>, seen: Seq<bool>, p: Seq<usize>, k: int)
    requires
        seen.len() == g.len(),
        walk(g, p),
        seen[p[0] as int],
        forall|u: int, v: int|
            0 <= u < g.len() && seen[u] && #[trigger] edge(g, u, v) ==> 0 <= v < g.len() && seen[v],
        0 <= k < p.len(),
    ensures
        seen[p[k] as int],
    decreases k,
{
    if k > 0 {
        closed_walk(g, seen, p, k - 1);
        assert(edge(g, p[k - 1] as int, p[k] as int));
    }
}

/// How many nodes have not been seen.
spec fn unseen(c: Seq<bool>) -> nat
    decreases c.len(),
{
    if c.len() == 0 {
        0
    } else {
        unseen(c.drop_last()) + (if c.last() {
            0nat
        } else {
            1nat
        })
    }
}

proof fn unseen_update(c: Seq<bool>, i: int)
    requires
        0 <= i < c.len(),
        !c[i],
    ensures
        unseen(c.update(i, true)) == unseen(c) - 1,
    decreases c.len(),
{
    let d = c.update(i, true);
    if i == c.len() - 1 {
        assert(d.drop_last() =~= c.drop_last());
    } else {
        assert(d.drop_last() =~= c.drop_last().update(i, true));
        unseen_update(c.drop_last(), i);
    }
}

/// Adds the successors of `u` that were not seen to the seen nodes and to the list.
fn spread(g: &Vec<Vec<usize>>, u: usize, seen: &mut Vec<bool>, todo: &mut Vec<usize>)
    requires
        well_formed(g@),
        u < g.len(),
        old(seen).len() == g.len(),
    ensures
        final(seen).len() == g.len(),
        forall|v: int| 0 <= v < g.len() && #[trigger] old(seen)@[v] ==> final(seen)@[v],
        forall|v: int|
            0 <= v < g.len() && #[trigger] final(seen)@[v] && !old(seen)@[v] ==> edge(
                g@,
                u as int,
                v,
            ) && final(todo)@.contains(v as usize),
        forall|v: int| #[trigger] edge(g@, u as int, v) ==> 0 <= v < g.len() && final(seen)@[v],
        forall|j: int|
            old(todo).len() <= j < final(todo).len() ==> (#[trigger] final(todo)@[j]) < g.len()
                && final(seen)@[final(todo)@[j] as int],
        final(todo).len() >= old(todo).len(),
        final(todo)@.take(old(todo).len() as int) == old(todo)@,
        unseen(final(seen)@) + final(todo).len() == unseen(old(seen)@) + old(todo).len(),
{
    let ghost seen0 = seen@;
    let ghost todo0 = todo@;
    assert(todo@.take(todo0.len() as int) =~= todo0);
    let mut k: usize = 0;
    while k < g[u].len()
        invariant
            k <= g@[u as int]@.len(),
            u < g.len(),
            well_formed(g@),
            seen.len() == g.len() == seen0.len(),
            forall|v: int| 0 <= v < g.len() && #[trigger] seen0[v] ==> seen@[v],
            forall|v: int|
                0 <= v < g.len() && #[trigger] seen@[v] && !seen0[v] ==> edge(g@, u as int, v)
                    && todo@.contains(v as usize),
            forall|j: int| 0 <= j < k ==> seen@[#[trigger] g@[u as int]@[j] as int],
            forall|j: int|
                todo0.len() <= j < todo.len() ==> (#[trigger] todo@[j]) < g.len() && seen@[todo@[j] as int],
            todo.len() >= todo0.len(),
            todo@.take(todo0.len() as int) == todo0,
            unseen(seen@) + todo.len() == unseen(seen0) + todo0.len(),
        decreases g@[u as int]@.len() - k,
    {
        let v = g[u][k];
        assert(edge(g@, u as int, v as int));
        if !seen[v] {
            let ghost seen1 = seen@;
            let ghost todo1 = todo@;
            proof {
                unseen_update(seen@, v as int);
            }
            seen.set(v, true);
            todo.push(v);
            assert(todo@.take(todo0.len() as int) =~= todo1.take(todo0.len() as int));
            assert forall|w: int| 0 <= w < g.len() && #[trigger] seen@[w] && !seen0[w] implies edge(
                g@,
                u as int,
                w,
            ) && todo@.contains(w as usize) by {
                if w == v {
                    assert(todo@[todo1.len() as int] == v);
                } else {
                    assert(seen1[w]);
                    let j = choose|j: int| 0 <= j < todo1.len() && todo1[j] == w as usize;
                    assert(todo@[j] == w as usize);
                }
            }
        }
        k += 1;
    }
    assert forall|v: int| #[trigger] edge(g@, u as int, v) implies 0 <= v < g.len() && seen@[v] by {
        let m = choose|m: int| 0 <= m < g@[u as int]@.len() && #[trigger] g@[u as int]@[m] == v;
        assert(seen@[g@[u as int]@[m] as int]);
    }
}

/// Which nodes some seed reaches.
#[verifier::rlimit(40)]
pub fn reach(g: &Vec<Vec<usize>>, seeds: &Vec<usize>) -> (r: Vec<bool>)
    requires
        well_formed(g@),
        forall|i: int| 0 <= i < seeds.len() ==> (#[trigger] seeds@[i]) < g.len(),
    ensures
        r.len() == g.len(),
        forall|v: int|
            0 <= v < g.len() ==> (#[trigger] r@[v] <==> exists|i: int|
                0 <= i < seeds.len() && #[trigger] reaches(g@, seeds@[i] as int, v)),
{
    let mut seen: Vec<bool> = Vec::new();
    while seen.len() < g.len()
        invariant
            seen.len() <= g.len(),
            forall|i: int| 0 <= i < seen.len() ==> !#[trigger] seen@[i],
        decreases g.len() - seen.len(),
    {
        seen.push(false);
    }
    let mut todo: Vec<usize> = Vec::new();
    let mut i: usize = 0;
    while i < seeds.len()
        invariant
            i <= seeds.len(),
            seen.len() == g.len(),
            forall|i: int| 0 <= i < seeds.len() ==> (#[trigger] seeds@[i]) < g.len(),
            forall|j: int| 0 <= j < i ==> seen@[#[trigger] seeds@[j] as int],
            forall|j: int| 0 <= j < todo.len() ==> (#[trigger] todo@[j]) < g.len() && seen@[todo@[j] as int],
            forall|v: int| 0 <= v < g.len() && #[trigger] seen@[v] ==> todo@.contains(v as usize),
            forall|v: int|
                0 <= v < g.len() && #[trigger] seen@[v] ==> exists|i: int|
                    0 <= i < seeds.len() && #[trigger] reaches(g@, seeds@[i] as int, v),
        decreases seeds.len() - i,
    {
        let s = seeds[i];
        if !seen[s] {
            let ghost todo0 = todo@;
            let ghost seen0 = seen@;
            seen.set(s, true);
            todo.push(s);
            proof {
                reaches_self(g@, s as int);
                assert forall|v: int| 0 <= v < g.len() && #[trigger] seen@[v] implies todo@.contains(
                    v as usize,
                ) by {
                    if v == s {
                        assert(todo@[todo0.len() as int] == s);
                    } else {
                        assert(seen0[v]);
                        let j = choose|j: int| 0 <= j < todo0.len() && todo0[j] == v as usize;
                        assert(todo@[j] == v as usize);
                    }
                }
                assert forall|v: int| 0 <= v < g.len() && #[trigger] seen@[v] implies exists|i: int|
                    0 <= i < seeds.len() && #[trigger] reaches(g@, seeds@[i] as int, v) by {
                    if v == s {
                        assert(reaches(g@, seeds@[i as int] as int, v));
                    } else {
                        assert(seen0[v]);
                    }
                }
            }
        }
        i += 1;
    }
    while todo.len() > 0
        invariant
            well_formed(g@),
            seen.len() == g.len(),
            forall|j: int| 0 <= j < seeds.len() ==> (#[trigger] seeds@[j]) < g.len() && seen@[seeds@[j] as int],
            forall|j: int| 0 <= j < todo.len() ==> (#[trigger] todo@[j]) < g.len() && seen@[todo@[j] as int],
            forall|u: int, v: int|
                0 <= u < g.len() && seen@[u] && !todo@.contains(u as usize) && #[trigger] edge(g@, u, v)
                    ==> 0 <= v < g.len() && seen@[v],
            forall|v: int|
                0 <= v < g.len() && #[trigger] seen@[v] ==> exists|i: int|
                    0 <= i < seeds.len() && #[trigger] reaches(g@, seeds@[i] as int, v),
        decreases unseen(seen@) + todo.len(),
    {
        let ghost todo0 = todo@;
        let ghost seen0 = seen@;
        let u = todo.pop().unwrap();
        assert(todo0.last() == u);
        assert(seen@[todo0[todo0.len() - 1] as int]);
        let ghost todo1 = todo@;
        spread(g, u, &mut seen, &mut todo);
        proof {
            assert forall|j: int| 0 <= j < todo.len() implies (#[trigger] todo@[j]) < g.len()
                && seen@[todo@[j] as int] by {
                if j < todo1.len() {
                    assert(todo@[j] == todo@.take(todo1.len() as int)[j]);
                    assert(todo@[j] == todo0[j]);
                }
            }
            assert forall|x: int, v: int|
                0 <= x < g.len() && seen@[x] && !todo@.contains(x as usize) && #[trigger] edge(
                    g@,
                    x,
                    v,
                ) implies 0 <= v < g.len() && seen@[v] by {
                if x != u {
                    assert(seen0[x]);
                    if todo0.contains(x as usize) {
                        let j = choose|j: int| 0 <= j < todo0.len() && todo0[j] == x as usize;
                        assert(todo@.take(todo1.len() as int)[j] == x as usize);
                        assert(todo@[j] == x as usize);
                    }
                }
            }
            let from = choose|i: int|
                0 <= i < seeds.len() && #[trigger] reaches(g@, seeds@[i] as int, u as int);
            assert forall|w: int| 0 <= w < g.len() && #[trigger] seen@[w] implies exists|i: int|
                0 <= i < seeds.len() && #[trigger] reaches(g@, seeds@[i] as int, w) by {
                if !seen0[w] {
                    reaches_step(g@, seeds@[from] as int, u as int, w);
                    assert(reaches(g@, seeds@[from] as int, w));
                }
            }
        }
    }
    assert forall|v: int| 0 <= v < g.len() implies (#[trigger] seen@[v] <==> exists|i: int|
        0 <= i < seeds.len() && #[trigger] reaches(g@, seeds@[i] as int, v)) by {
        if exists|i: int| 0 <= i < seeds.len() && #[trigger] reaches(g@, seeds@[i] as int, v) {
            let i = choose|i: int| 0 <= i < seeds.len() && #[trigger] reaches(g@, seeds@[i] as int, v);
            let p = choose|p: Seq<usize>| #[trigger]
                walk(g@, p) && p[0] == seeds@[i] as int && p.last() == v;
            closed_walk(g@, seen@, p, p.len() - 1);
        }
    }
    seen
}

} // verus!
