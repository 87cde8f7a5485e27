//! Directed graphs given by pairs of names: chains, loops, and groups of names that reach each
//! other.
use vstd::prelude::*;

use crate::graph::{cyclic, edge, find_cycle, reach, reaches, walk, well_formed};
use crate::order::{in_order, named, pair_views, row_of, row_unique, sorted_set, Names, Table};
use crate::text::{gather, put, texts};

verus! {

/// Whether `p` is a chain: each name is linked to the next.
pub open spec fn chain(es: Seq<(Seq<char>, Seq<char>)>, p: Seq<Seq<char>>) -> bool {
    &&& p.len() >= 1
    &&& forall|i: int| 0 <= i < p.len() - 1 ==> es.contains((#[trigger] p[i], p[i + 1]))
}

/// Whether some chain along at least one link comes back to where it began.
pub open spec fn looped(es: Seq<(Seq<char>, Seq<char>)>) -> bool {
    exists|p: Seq<Seq<char>>| #[trigger] chain(es, p) && p.len() >= 2 && p[0] == p.last()
}

/// Whether a chain leads from `a` to `b`.
pub open spec fn leads(es: Seq<(Seq<char>, Seq<char>)>, a: Seq<char>, b: Seq<char>) -> bool {
    exists|p: Seq<Seq<char>>| #[trigger] chain(es, p) && p[0] == a && p.last() == b
}

/// Whether each of two names leads to the other.
pub open spec fn mutual(es: Seq<(Seq<char>, Seq<char>)>, a: Seq<char>, b: Seq<char>) -> bool {
    leads(es, a, b) && leads(es, b, a)
}

/// The ends of the links, in their order.
pub open spec fn ends_of(es: Seq<(Seq<char>, Seq<char>)>) -> spec_fn(int) -> Seq<Seq<char>> {
    |i: int| seq![es[i].0, es[i].1]
}

/// All names that are linked.
pub open spec fn endpoints(es: Seq<(Seq<char>, Seq<char>)>) -> Seq<Seq<char>> {
    gather(es.len() as int, ends_of(es))
}

/// The names among `names` that reach each other with the name at position `i`.
pub open spec fn tangled(es: Seq<(Seq<char>, Seq<char>)>, names: Seq<Seq<char>>, i: int) -> spec_fn(
    int,
) -> Seq<Seq<char>> {
    |j: int|
        if mutual(es, names[i], names[j]) {
            seq![names[j]]
        } else {
            seq![]
        }
}

/// The group of the name at position `i`, where it has more than one member and that name is
/// the first of them.
pub open spec fn tangle(es: Seq<(Seq<char>, Seq<char>)>, names: Seq<Seq<char>>) -> spec_fn(
    int,
) -> Seq<Seq<Seq<char>>> {
    |i: int|
        {
            let group = gather(names.len() as int, tangled(es, names, i));
            if group.len() > 1 && group[0] == names[i] {
                seq![group]
            } else {
                seq![]
            }
        }
}

/// Whether `r` lists the groups of two or more names that reach each other, in order.
pub open spec fn tangles_of(r: Seq<Seq<Seq<char>>>, es: Seq<(Seq<char>, Seq<char>)>) -> bool {
    exists|names: Seq<Seq<char>>| #[trigger]
        sorted_set(names, endpoints(es)) && r == gather(names.len() as int, tangle(es, names))
}

/// The views of a list of lists of strings.
pub open spec fn groups(v: Seq<Vec<String>>) -> Seq<Seq<Seq<char>>> {
    v.map_values(|g: Vec<String>| texts(g@))
}

// ── numbering ──────────────────────────────────────────────────────────────────────────

/// The names of a set.
spec fn listed(rows: Seq<(Seq<char>, ())>) -> Seq<Seq<char>> {
    rows.map_values(|r: (Seq<char>, ())| r.0)
}

/// Whether `g` is the graph of the links between the numbered names.
spec fn numbered(
    rows: Seq<(Seq<char>, ())>,
    es: Seq<(Seq<char>, Seq<char>)>,
    g: Seq<Vec<usize>>,
) -> bool {
    &&& g.len() == rows.len()
    &&& rows.len() <= usize::MAX
    &&& well_formed(g)
    &&& in_order(false, rows)
    &&& forall|k: int| 0 <= k < es.len() ==> named(rows, (#[trigger] es[k]).0) && named(rows, es[k].1)
    &&& forall|i: int, j: int|
        0 <= i < g.len() && 0 <= j < g.len() ==> (#[trigger] edge(g, i, j) <==> es.contains(
            (rows[i].0, rows[j].0),
        ))
}

proof fn walk_is_chain(
    rows: Seq<(Seq<char>, ())>,
    es: Seq<(Seq<char>, Seq<char>)>,
    g: Seq<Vec<usize>>,
    p: Seq<usize>,
) -> (q: Seq<Seq<char>>)
    requires
        numbered(rows, es, g),
        walk(g, p),
    ensures
        chain(es, q),
        q.len() == p.len(),
        q[0] == rows[p[0] as int].0,
        q.last() == rows[p.last() as int].0,
{
    let q = Seq::new(p.len(), |i: int| rows[p[i] as int].0);
    assert forall|i: int| 0 <= i < q.len() - 1 implies es.contains((#[trigger] q[i], q[i + 1])) by {
        assert(edge(g, p[i] as int, p[i + 1] as int));
        assert(p[i + 1] < g.len());
    }
    q
}

proof fn chain_is_walk(
    rows: Seq<(Seq<char>, ())>,
    es: Seq<(Seq<char>, Seq<char>)>,
    g: Seq<Vec<usize>>,
    q: Seq<Seq<char>>,
) -> (p: Seq<usize>)
    requires
        numbered(rows, es, g),
        chain(es, q),
        named(rows, q[0]),
    ensures
        walk(g, p),
        p.len() == q.len(),
        rows[p[0] as int].0 == q[0],
        rows[p.last() as int].0 == q.last(),
        named(rows, q.last()),
{
    let p = Seq::new(q.len(), |i: int| row_of(rows, q[i])->0 as usize);
    assert forall|i: int| 0 <= i < p.len() implies (#[trigger] p[i]) < g.len() && rows[p[i] as int].0
        == q[i] by {
        chain_named(rows, es, g, q, i);
        row_found(rows, q[i]);
    }
    assert forall|i: int| 0 <= i < p.len() - 1 implies edge(
        g,
        #[trigger] p[i] as int,
        p[i + 1] as int,
    ) by {
        assert(p[i + 1] < g.len());
        assert(es.contains((q[i], q[i + 1])));
    }
    chain_named(rows, es, g, q, q.len() - 1);
    assert(walk(g, p));
    assert(p[p.len() - 1] < g.len());
    p
}

proof fn row_found(rows: Seq<(Seq<char>, ())>, n: Seq<char>)
    requires
        named(rows, n),
    ensures
        row_of(rows, n) is Some,
        0 <= row_of(rows, n)->0 < rows.len(),
        rows[row_of(rows, n)->0].0 == n,
{
}

proof fn chain_named(
    rows: Seq<(Seq<char>, ())>,
    es: Seq<(Seq<char>, Seq<char>)>,
    g: Seq<Vec<usize>>,
    q: Seq<Seq<char>>,
    i: int,
)
    requires
        numbered(rows, es, g),
        chain(es, q),
        named(rows, q[0]),
        0 <= i < q.len(),
    ensures
        named(rows, q[i]),
{
    if i > 0 {
        assert(es.contains((q[i - 1], q[i - 1 + 1])));
        let k = choose|k: int| 0 <= k < es.len() && es[k] == (q[i - 1], q[i]);
        assert(named(rows, es[k].1));
    }
}

proof fn leads_is_reaches(
    rows: Seq<(Seq<char>, ())>,
    es: Seq<(Seq<char>, Seq<char>)>,
    g: Seq<Vec<usize>>,
    i: int,
    j: int,
)
    requires
        numbered(rows, es, g),
        0 <= i < rows.len(),
        0 <= j < rows.len(),
    ensures
        leads(es, rows[i].0, rows[j].0) <==> reaches(g, i, j),
{
    let a = rows[i].0;
    let b = rows[j].0;
    if leads(es, a, b) {
        let q = choose|p: Seq<Seq<char>>| #[trigger] chain(es, p) && p[0] == a && p.last() == b;
        assert(rows[i].0 == q[0]);
        assert(named(rows, q[0]));
        let p = chain_is_walk(rows, es, g, q);
        row_unique(false, rows, i);
        row_unique(false, rows, j);
        row_unique(false, rows, p[0] as int);
        assert(p[p.len() - 1] < g.len());
        row_unique(false, rows, p.last() as int);
    }
    if reaches(g, i, j) {
        let p = choose|p: Seq<usize>| #[trigger] walk(g, p) && p[0] == i && p.last() == j;
        let q = walk_is_chain(rows, es, g, p);
    }
}

/// Numbers the names, and lists for each name those that it is linked to; for `back` those that
/// are linked to it.
fn number(es: &Vec<(String, String)>) -> (r: (Names, Vec<Vec<usize>>, Vec<Vec<usize>>))
    ensures
        numbered(r.0@, pair_views(es@), r.1@),
        numbered(r.0@, flipped(pair_views(es@)), r.2@),
        sorted_set(listed(r.0@), endpoints(pair_views(es@))),
{
    let ghost all = pair_views(es@);
    let mut names: Names = Table::new();
    let mut k: usize = 0;
    while k < es.len()
        invariant
            k <= es.len(),
            all == pair_views(es@),
            in_order(false, names@),
            forall|n: Seq<char>| #[trigger]
                named(names@, n) <==> gather(k as int, ends_of(all)).contains(n),
        decreases es.len() - k,
    {
        let ghost before = names@;
        names.insert(es[k].0.clone(), ());
        let ghost mid = names@;
        names.insert(es[k].1.clone(), ());
        proof {
            let g0 = gather(k as int, ends_of(all));
            let g1 = gather(k + 1, ends_of(all));
            assert(g1 == g0 + seq![all[k as int].0, all[k as int].1]);
            assert forall|n: Seq<char>| #[trigger] named(names@, n) <==> g1.contains(n) by {
                if g1.contains(n) {
                    let i = choose|i: int| 0 <= i < g1.len() && g1[i] == n;
                    if i < g0.len() {
                        assert(g0[i] == n);
                        assert(g0.contains(n));
                        assert(named(before, n));
                        assert(n == es@[k as int].0@ || named(mid, n));
                    } else if i == g0.len() {
                        assert(n == es@[k as int].0@);
                        assert(named(mid, n));
                    }
                }
                if named(names@, n) {
                    if n == es@[k as int].1@ {
                        assert(g1[g0.len() as int + 1] == n);
                    } else {
                        assert(named(mid, n));
                        if n == es@[k as int].0@ {
                            assert(g1[g0.len() as int] == n);
                        } else {
                            assert(named(before, n));
                            let i = choose|i: int| 0 <= i < g0.len() && g0[i] == n;
                            assert(g1[i] == n);
                        }
                    }
                }
            }
        }
        k += 1;
    }
    let total = names.len();
    proof {
        let l = listed(names@);
        assert forall|i: int, j: int| 0 <= i < j < l.len() implies crate::order::before(
            #[trigger] crate::order::Ranked::rank(&l[i]),
            #[trigger] crate::order::Ranked::rank(&l[j]),
        ) by {
            assert(names@[i].0 == l[i] && names@[j].0 == l[j]);
        }
        assert forall|x: Seq<char>| #[trigger] l.contains(x) <==> endpoints(all).contains(x) by {
            if l.contains(x) {
                let i = choose|i: int| 0 <= i < l.len() && l[i] == x;
                assert(names@[i].0 == x);
                assert(named(names@, x));
            }
            if endpoints(all).contains(x) {
                assert(named(names@, x));
                let i = choose|i: int| 0 <= i < names@.len() && #[trigger] names@[i].0 == x;
                assert(l[i] == x);
            }
        }
        assert forall|k: int| 0 <= k < all.len() implies named(names@, (#[trigger] all[k]).0) && named(
            names@,
            all[k].1,
        ) by {
            crate::text::gather_contains(all.len() as int, ends_of(all), all[k].0);
            crate::text::gather_contains(all.len() as int, ends_of(all), all[k].1);
            assert((ends_of(all))(k)[0] == all[k].0);
            assert((ends_of(all))(k)[1] == all[k].1);
            assert(endpoints(all).contains(all[k].0));
            assert(endpoints(all).contains(all[k].1));
        }
    }
    let mut out: Vec<Vec<usize>> = Vec::new();
    let mut back: Vec<Vec<usize>> = Vec::new();
    while out.len() < total
        invariant
            out.len() == back.len() <= total,
            forall|i: int| 0 <= i < out.len() ==> (#[trigger] out@[i])@.len() == 0,
            forall|i: int| 0 <= i < back.len() ==> (#[trigger] back@[i])@.len() == 0,
        decreases total - out.len(),
    {
        out.push(Vec::new());
        back.push(Vec::new());
    }
    let mut k: usize = 0;
    while k < es.len()
        invariant
            k <= es.len(),
            all == pair_views(es@),
            total == names@.len() == out.len() == back.len(),
            in_order(false, names@),
            forall|k: int| 0 <= k < all.len() ==> named(names@, (#[trigger] all[k]).0) && named(
                names@,
                all[k].1,
            ),
            well_formed(out@),
            well_formed(back@),
            forall|i: int, j: int|
                0 <= i < total && 0 <= j < total ==> (#[trigger] edge(out@, i, j) <==> all.take(
                    k as int,
                ).contains((names@[i].0, names@[j].0))),
            forall|i: int, j: int|
                0 <= i < total && 0 <= j < total ==> (#[trigger] edge(back@, i, j) <==> all.take(
                    k as int,
                ).contains((names@[j].0, names@[i].0))),
        decreases es.len() - k,
    {
        let a = names.find(es[k].0.as_str());
        let b = names.find(es[k].1.as_str());
        assert(all[k as int] == (es@[k as int].0@, es@[k as int].1@));
        assert(named(names@, all[k as int].0));
        match (a, b) {
            (Some(i), Some(j)) => {
                let ghost out0 = out@;
                let ghost back0 = back@;
                let mut row: Vec<usize> = Vec::new();
                let mut col: Vec<usize> = Vec::new();
                std::mem::swap(&mut row, &mut out[i]);
                std::mem::swap(&mut col, &mut back[j]);
                row.push(j);
                col.push(i);
                out.set(i, row);
                back.set(j, col);
                proof {
                    linked_more(names@, all, k as int, i as int, j as int, out0, out@);
                    let rev = flipped(all);
                    assert forall|x: int, y: int| 0 <= x < total && 0 <= y < total implies (
                    #[trigger] edge(back0, x, y) <==> rev.take(k as int).contains(
                        (names@[x].0, names@[y].0),
                    )) by {
                        flipped_contains(all, k as int, names@[y].0, names@[x].0);
                    }
                    linked_more(names@, rev, k as int, j as int, i as int, back0, back@);
                    assert forall|x: int, y: int| 0 <= x < total && 0 <= y < total implies (
                    #[trigger] edge(back@, x, y) <==> all.take(k + 1).contains(
                        (names@[y].0, names@[x].0),
                    )) by {
                        flipped_contains(all, k + 1, names@[y].0, names@[x].0);
                    }
                }
            },
            _ => {},
        }
        k += 1;
    }
    proof {
        assert(all.take(all.len() as int) =~= all);
        let rev = flipped(all);
        assert forall|i: int, j: int| 0 <= i < total && 0 <= j < total implies (#[trigger] edge(
            back@,
            i,
            j,
        ) <==> rev.contains((names@[i].0, names@[j].0))) by {
            flipped_contains(all, all.len() as int, names@[j].0, names@[i].0);
            assert(rev.take(all.len() as int) =~= rev);
        }
    }
    (names, out, back)
}

/// The links the other way round.
spec fn flipped(es: Seq<(Seq<char>, Seq<char>)>) -> Seq<(Seq<char>, Seq<char>)> {
    es.map_values(|e: (Seq<char>, Seq<char>)| (e.1, e.0))
}

proof fn flipped_contains(es: Seq<(Seq<char>, Seq<char>)>, k: int, a: Seq<char>, b: Seq<char>)
    requires
        0 <= k <= es.len(),
    ensures
        es.take(k).contains((a, b)) <==> flipped(es).take(k).contains((b, a)),
{
    let f = flipped(es).take(k);
    let e = es.take(k);
    if e.contains((a, b)) {
        let i = choose|i: int| 0 <= i < e.len() && e[i] == (a, b);
        assert(f[i] == (b, a));
    }
    if f.contains((b, a)) {
        let i = choose|i: int| 0 <= i < f.len() && f[i] == (b, a);
        assert(e[i] == (a, b));
    }
}

proof fn linked_more(
    rows: Seq<(Seq<char>, ())>,
    es: Seq<(Seq<char>, Seq<char>)>,
    k: int,
    i: int,
    j: int,
    g0: Seq<Vec<usize>>,
    g1: Seq<Vec<usize>>,
)
    requires
        in_order(false, rows),
        0 <= k < es.len(),
        0 <= i < rows.len(),
        0 <= j < rows.len(),
        g0.len() == g1.len() == rows.len(),
        rows.len() <= usize::MAX,
        es[k] == (rows[i].0, rows[j].0),
        g1[i]@ == g0[i]@.push(j as usize),
        forall|x: int| 0 <= x < rows.len() && x != i ==> g1[x] == g0[x],
        forall|x: int, y: int|
            0 <= x < rows.len() && 0 <= y < rows.len() ==> (#[trigger] edge(g0, x, y) <==> es.take(
                k,
            ).contains((rows[x].0, rows[y].0))),
    ensures
        forall|x: int, y: int|
            0 <= x < rows.len() && 0 <= y < rows.len() ==> (#[trigger] edge(g1, x, y) <==> es.take(
                k + 1,
            ).contains((rows[x].0, rows[y].0))),
{
    let e0 = es.take(k);
    let e1 = es.take(k + 1);
    assert(e1 =~= e0.push(es[k]));
    assert forall|x: int, y: int| 0 <= x < rows.len() && 0 <= y < rows.len() implies (
    #[trigger] edge(g1, x, y) <==> e1.contains((rows[x].0, rows[y].0))) by {
        assert(edge(g0, x, y) <==> e0.contains((rows[x].0, rows[y].0)));
        if edge(g1, x, y) {
            let m = choose|m: int| 0 <= m < g1[x]@.len() && #[trigger] g1[x]@[m] == y;
            if x == i && m == g0[i]@.len() {
                assert(y == j);
                assert(e1[k] == (rows[x].0, rows[y].0));
            } else {
                assert(g0[x]@[m] == y);
                assert(edge(g0, x, y));
                let n = choose|n: int| 0 <= n < e0.len() && e0[n] == (rows[x].0, rows[y].0);
                assert(e1[n] == (rows[x].0, rows[y].0));
            }
        }
        if e1.contains((rows[x].0, rows[y].0)) {
            let n = choose|n: int| 0 <= n < e1.len() && e1[n] == (rows[x].0, rows[y].0);
            if n == k {
                row_unique(false, rows, x);
                row_unique(false, rows, i);
                row_unique(false, rows, y);
                row_unique(false, rows, j);
                assert(x == i && y == j);
                assert(g1[x]@[g0[i]@.len() as int] == y);
            } else {
                assert(e0[n] == (rows[x].0, rows[y].0));
                assert(edge(g0, x, y));
                let m = choose|m: int| 0 <= m < g0[x]@.len() && #[trigger] g0[x]@[m] == y;
                assert(g1[x]@[m] == y);
            }
        }
    }
}

proof fn flipped_chain(es: Seq<(Seq<char>, Seq<char>)>, p: Seq<Seq<char>>)
    requires
        chain(flipped(es), p),
    ensures
        chain(es, p.reverse()),
        p.reverse().len() == p.len(),
        p.reverse()[0] == p.last(),
        p.reverse().last() == p[0],
{
    let q = p.reverse();
    assert forall|i: int| 0 <= i < q.len() - 1 implies es.contains((#[trigger] q[i], q[i + 1])) by {
        let j = p.len() - 2 - i;
        assert(q[i] == p[j + 1] && q[i + 1] == p[j]);
        flipped_back(es, p[j], p[j + 1]);
    }
}

proof fn flipped_back(es: Seq<(Seq<char>, Seq<char>)>, a: Seq<char>, b: Seq<char>)
    requires
        flipped(es).contains((a, b)),
    ensures
        es.contains((b, a)),
{
    let f = flipped(es);
    let n = choose|n: int| 0 <= n < f.len() && f[n] == (a, b);
    assert(es[n] == (b, a));
}

proof fn flipped_leads(es: Seq<(Seq<char>, Seq<char>)>, a: Seq<char>, b: Seq<char>)
    ensures
        leads(flipped(es), a, b) <==> leads(es, b, a),
{
    let f = flipped(es);
    if leads(f, a, b) {
        let p = choose|p: Seq<Seq<char>>| #[trigger] chain(f, p) && p[0] == a && p.last() == b;
        flipped_chain(es, p);
    }
    if leads(es, b, a) {
        assert(flipped(f) =~= es);
        let p = choose|p: Seq<Seq<char>>| #[trigger] chain(es, p) && p[0] == b && p.last() == a;
        flipped_chain(f, p);
    }
}

/// Whether some chain of links comes back to where it began.
pub fn has_loop(es: &Vec<(String, String)>) -> (r: bool)
    ensures
        r == looped(pair_views(es@)),
{
    let (names, g, _back) = number(es);
    let ghost all = pair_views(es@);
    proof {
        if looped(all) {
            let q = choose|p: Seq<Seq<char>>| #[trigger]
                chain(all, p) && p.len() >= 2 && p[0] == p.last();
            assert(all.contains((q[0], q[1])));
            let k = choose|k: int| 0 <= k < all.len() && all[k] == (q[0], q[1]);
            assert(named(names@, all[k].0));
            let p = chain_is_walk(names@, all, g@, q);
            row_unique(false, names@, p[0] as int);
            assert(p[p.len() - 1] < g@.len());
            row_unique(false, names@, p.last() as int);
            assert(cyclic(g@));
        }
        if cyclic(g@) {
            let p = choose|p: Seq<usize>| #[trigger] walk(g@, p) && p.len() >= 2 && p[0] == p.last();
            let q = walk_is_chain(names@, all, g@, p);
        }
    }
    find_cycle(&g).is_some()
}

proof fn reach_is_mutual(
    rows: Seq<(Seq<char>, ())>,
    es: Seq<(Seq<char>, Seq<char>)>,
    g: Seq<Vec<usize>>,
    back: Seq<Vec<usize>>,
    i: int,
    j: int,
)
    requires
        numbered(rows, es, g),
        numbered(rows, flipped(es), back),
        0 <= i < rows.len(),
        0 <= j < rows.len(),
    ensures
        mutual(es, rows[i].0, rows[j].0) <==> (reaches(g, i, j) && reaches(back, i, j)),
{
    leads_is_reaches(rows, es, g, i, j);
    leads_is_reaches(rows, flipped(es), back, i, j);
    flipped_leads(es, rows[i].0, rows[j].0);
}

/// Which nodes the node `i` reaches.
fn reach_one(g: &Vec<Vec<usize>>, i: usize) -> (r: Vec<bool>)
    requires
        well_formed(g@),
        i < g.len(),
    ensures
        r.len() == g.len(),
        forall|v: int| 0 <= v < g.len() ==> (#[trigger] r@[v] <==> reaches(g@, i as int, v)),
{
    let mut from: Vec<usize> = Vec::new();
    from.push(i);
    let r = reach(g, &from);
    assert forall|v: int| 0 <= v < g.len() implies (#[trigger] r@[v] <==> reaches(
        g@,
        i as int,
        v,
    )) by {
        assert(from@[0] == i);
        if reaches(g@, i as int, v) {
            assert(reaches(g@, from@[0] as int, v));
        }
    }
    r
}

/// The group of the name at position `i`, and the position of the first of its members.
fn group_of(
    names: &Names,
    g: &Vec<Vec<usize>>,
    back: &Vec<Vec<usize>>,
    i: usize,
    Ghost(es): Ghost<Seq<(Seq<char>, Seq<char>)>>,
) -> (r: (Vec<String>, usize))
    requires
        numbered(names@, es, g@),
        numbered(names@, flipped(es), back@),
        i < names@.len(),
    ensures
        texts(r.0@) == gather(names@.len() as int, tangled(es, listed(names@), i as int)),
        r.1 < names@.len(),
        r.0@.len() > 0 ==> r.0@[0]@ == names@[r.1 as int].0,
{
    let total = names.len();
    let ghost list = listed(names@);
    let there = reach_one(g, i);
    let here = reach_one(back, i);
    let mut group: Vec<String> = Vec::new();
    let mut first = i;
    let mut j: usize = 0;
    while j < total
        invariant
            j <= total == names@.len() == there.len() == here.len(),
            i < total,
            list == listed(names@),
            numbered(names@, es, g@),
            numbered(names@, flipped(es), back@),
            forall|v: int| 0 <= v < total ==> (#[trigger] there@[v] <==> reaches(g@, i as int, v)),
            forall|v: int| 0 <= v < total ==> (#[trigger] here@[v] <==> reaches(back@, i as int, v)),
            texts(group@) =~= gather(j as int, tangled(es, list, i as int)),
            first < total,
            group.len() > 0 ==> group@[0]@ == names@[first as int].0,
        decreases total - j,
    {
        proof {
            reach_is_mutual(names@, es, g@, back@, i as int, j as int);
            assert(list[i as int] == names@[i as int].0);
            assert(list[j as int] == names@[j as int].0);
        }
        if there[j] && here[j] {
            if group.len() == 0 {
                first = j;
            }
            put(&mut group, names.name(j).clone());
        }
        j += 1;
    }
    (group, first)
}

/// The groups of two or more names that reach each other: the names of a group in order, the
/// groups by their first names.
pub fn tangles(es: &Vec<(String, String)>) -> (r: Vec<Vec<String>>)
    ensures
        tangles_of(groups(r@), pair_views(es@)),
{
    let (names, g, back) = number(es);
    let ghost all = pair_views(es@);
    let ghost list = listed(names@);
    let total = names.len();
    let mut r: Vec<Vec<String>> = Vec::new();
    let mut i: usize = 0;
    while i < total
        invariant
            i <= total == names@.len(),
            list == listed(names@),
            numbered(names@, all, g@),
            numbered(names@, flipped(all), back@),
            groups(r@) =~= gather(i as int, tangle(all, list)),
        decreases total - i,
    {
        let (group, first) = group_of(&names, &g, &back, i, Ghost(all));
        proof {
            row_unique(false, names@, i as int);
            row_unique(false, names@, first as int);
            assert(list[i as int] == names@[i as int].0);
            if group@.len() > 0 {
                assert(texts(group@)[0] == group@[0]@);
            }
        }
        if group.len() > 1 && first == i {
            let ghost before = groups(r@);
            let ghost mine = texts(group@);
            r.push(group);
            assert(groups(r@) =~= before.push(mine));
        }
        i += 1;
    }
    assert(sorted_set(list, endpoints(all)));
    r
}

/// The names that some seed leads to, the seeds among them.
pub fn closure(es: &Vec<(String, String)>, seeds: &Names) -> (r: Names)
    ensures
        forall|x: Seq<char>| #[trigger]
            named(r@, x) <==> exists|s: Seq<char>| #[trigger]
                named(seeds@, s) && leads(pair_views(es@), s, x),
{
    let ghost all = pair_views(es@);
    let (names, g, _back) = number(es);
    let total = names.len();
    let count = seeds.len();
    let mut r: Names = Table::new();
    let mut from: Vec<usize> = Vec::new();
    let mut i: usize = 0;
    while i < count
        invariant
            i <= count == seeds@.len(),
            numbered(names@, all, g@),
            forall|x: Seq<char>| #[trigger]
                named(r@, x) <==> exists|k: int| 0 <= k < i && #[trigger] seeds@[k].0 == x,
            forall|k: int| 0 <= k < from.len() ==> (#[trigger] from@[k]) < names@.len() && named(
                seeds@,
                names@[from@[k] as int].0,
            ),
            forall|k: int, m: int|
                0 <= k < i && 0 <= m < names@.len() && #[trigger] seeds@[k].0
                    == #[trigger] names@[m].0 ==> from@.contains(m as usize),
        decreases count - i,
    {
        let seed = seeds.name(i);
        let ghost from0 = from@;
        let ghost had = r@;
        let found = names.find(seed.as_str());
        match found {
            Some(j) => {
                from.push(j);
                assert(from@[from0.len() as int] == j);
                assert(seeds@[i as int].0 == names@[j as int].0);
            },
            None => {},
        }
        r.insert(seed.clone(), ());
        proof {
            assert forall|x: Seq<char>| #[trigger] named(r@, x) <==> exists|k: int|
                0 <= k < i + 1 && #[trigger] seeds@[k].0 == x by {
                if x == seed@ {
                    assert(seeds@[i as int].0 == x);
                } else {
                    assert(named(r@, x) <==> named(had, x));
                }
            }
            assert forall|k: int, m: int|
                0 <= k < i + 1 && 0 <= m < names@.len() && #[trigger] seeds@[k].0
                    == #[trigger] names@[m].0 implies from@.contains(m as usize) by {
                if k < i {
                    assert(from0.contains(m as usize));
                    let a = choose|a: int| 0 <= a < from0.len() && from0[a] == m as usize;
                    assert(from@[a] == m as usize);
                } else {
                    row_unique(false, names@, m);
                    assert(named(names@, seed@));
                }
            }
        }
        i += 1;
    }
    let seen = reach(&g, &from);
    let mut j: usize = 0;
    let ghost base = r@;
    while j < total
        invariant
            j <= total == names@.len() == seen.len(),
            forall|x: Seq<char>| #[trigger]
                named(r@, x) <==> named(base, x) || exists|k: int|
                    0 <= k < j && seen@[k] && #[trigger] names@[k].0 == x,
        decreases total - j,
    {
        let ghost had = r@;
        if seen[j] {
            r.insert(names.name(j).clone(), ());
            assert forall|x: Seq<char>| #[trigger] named(r@, x) <==> named(base, x) || exists|k: int|
                0 <= k < j + 1 && seen@[k] && #[trigger] names@[k].0 == x by {
                if x == names@[j as int].0 {
                    assert(seen@[j as int] && names@[j as int].0 == x);
                } else {
                    assert(named(r@, x) <==> named(had, x));
                }
            }
        }
        j += 1;
    }
    proof {
        assert forall|x: Seq<char>| #[trigger] named(r@, x) <==> exists|s: Seq<char>| #[trigger]
            named(seeds@, s) && leads(all, s, x) by {
            if named(r@, x) {
                if named(base, x) {
                    let k = choose|k: int| 0 <= k < count && #[trigger] seeds@[k].0 == x;
                    assert(named(seeds@, x));
                    assert(chain(all, seq![x]));
                    assert(leads(all, x, x));
                } else {
                    let k = choose|k: int| 0 <= k < total && seen@[k] && #[trigger] names@[k].0 == x;
                    let s = seen_is_led(names@, all, g@, seeds@, from@, seen@, k);
                    assert(named(seeds@, s) && leads(all, s, x));
                }
            }
            if exists|s: Seq<char>| #[trigger] named(seeds@, s) && leads(all, s, x) {
                let s = choose|s: Seq<char>| #[trigger] named(seeds@, s) && leads(all, s, x);
                let k = choose|k: int| 0 <= k < seeds@.len() && #[trigger] seeds@[k].0 == s;
                assert(seeds@[k].0 == s);
                assert(named(base, s));
                if x != s {
                    let n = led_is_seen(names@, all, g@, seeds@, from@, seen@, s, x);
                    assert(seen@[n] && names@[n].0 == x);
                }
            }
        }
    }
    r
}

proof fn seen_is_led(
    rows: Seq<(Seq<char>, ())>,
    es: Seq<(Seq<char>, Seq<char>)>,
    g: Seq<Vec<usize>>,
    seeds: Seq<(Seq<char>, ())>,
    from: Seq<usize>,
    seen: Seq<bool>,
    k: int,
) -> (s: Seq<char>)
    requires
        numbered(rows, es, g),
        seen.len() == g.len(),
        0 <= k < rows.len(),
        seen[k],
        forall|i: int| 0 <= i < from.len() ==> (#[trigger] from[i]) < rows.len() && named(
            seeds,
            rows[from[i] as int].0,
        ),
        forall|v: int|
            0 <= v < g.len() ==> (#[trigger] seen[v] <==> exists|i: int|
                0 <= i < from.len() && #[trigger] reaches(g, from[i] as int, v)),
    ensures
        named(seeds, s),
        leads(es, s, rows[k].0),
{
    let m = choose|m: int| 0 <= m < from.len() && #[trigger] reaches(g, from[m] as int, k);
    assert(from[m] < rows.len());
    leads_is_reaches(rows, es, g, from[m] as int, k);
    rows[from[m] as int].0
}

proof fn led_is_seen(
    rows: Seq<(Seq<char>, ())>,
    es: Seq<(Seq<char>, Seq<char>)>,
    g: Seq<Vec<usize>>,
    seeds: Seq<(Seq<char>, ())>,
    from: Seq<usize>,
    seen: Seq<bool>,
    s: Seq<char>,
    x: Seq<char>,
) -> (n: int)
    requires
        numbered(rows, es, g),
        seen.len() == g.len(),
        named(seeds, s),
        leads(es, s, x),
        s != x,
        forall|k: int, m: int|
            0 <= k < seeds.len() && 0 <= m < rows.len() && #[trigger] seeds[k].0
                == #[trigger] rows[m].0 ==> from.contains(m as usize),
        forall|v: int|
            0 <= v < g.len() ==> (#[trigger] seen[v] <==> exists|i: int|
                0 <= i < from.len() && #[trigger] reaches(g, from[i] as int, v)),
    ensures
        0 <= n < rows.len(),
        seen[n],
        rows[n].0 == x,
{
    let p = choose|p: Seq<Seq<char>>| #[trigger] chain(es, p) && p[0] == s && p.last() == x;
    closure_found(rows, es, g, p);
    row_found(rows, s);
    row_found(rows, x);
    let m = row_of(rows, s)->0;
    let n = row_of(rows, x)->0;
    leads_is_reaches(rows, es, g, m, n);
    let k = choose|k: int| 0 <= k < seeds.len() && #[trigger] seeds[k].0 == s;
    assert(seeds[k].0 == rows[m].0);
    let a = choose|a: int| 0 <= a < from.len() && from[a] == m as usize;
    assert(reaches(g, from[a] as int, n));
    n
}

proof fn closure_found(
    rows: Seq<(Seq<char>, ())>,
    es: Seq<(Seq<char>, Seq<char>)>,
    g: Seq<Vec<usize>>,
    p: Seq<Seq<char>>,
)
    requires
        numbered(rows, es, g),
        chain(es, p),
        p.len() > 1,
    ensures
        named(rows, p[0]),
        named(rows, p.last()),
{
    assert(es.contains((p[0], p[1])));
    let k = choose|k: int| 0 <= k < es.len() && es[k] == (p[0], p[1]);
    assert(named(rows, es[k].0));
    chain_named(rows, es, g, p, p.len() - 1);
}

} // verus!
