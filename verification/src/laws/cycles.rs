//! Which files depend on each other in turn.
use vstd::prelude::*;

use crate::links::{chain, endpoints, ends_of, leads, mutual, tangle, tangled, tangles_of};
use crate::order::{links, sorted_set, Names};
use crate::scip::{links_exactly, lists_cycles};
use crate::text::{gather, gather_contains};

verus! {

/// Whether `p` is a way along dependencies: each file depends on the next.
pub open spec fn way_along(deps: Seq<(Seq<char>, Names)>, p: Seq<Seq<char>>) -> bool {
    p.len() > 0 && forall|i: int| 0 <= i < p.len() - 1 ==> links(deps, #[trigger] p[i], p[i + 1])
}

/// Whether a file depends on another, directly or in turn.
pub open spec fn depends_in_turn(
    deps: Seq<(Seq<char>, Names)>,
    a: Seq<char>,
    b: Seq<char>,
) -> bool {
    exists|p: Seq<Seq<char>>| #[trigger] way_along(deps, p) && p[0] == a && p.last() == b
}

proof fn leads_is_in_turn(
    deps: Seq<(Seq<char>, Names)>,
    es: Seq<(Seq<char>, Seq<char>)>,
    a: Seq<char>,
    b: Seq<char>,
)
    requires
        links_exactly(deps, es),
    ensures
        leads(es, a, b) <==> depends_in_turn(deps, a, b),
{
    if leads(es, a, b) {
        let p = choose|p: Seq<Seq<char>>| #[trigger] chain(es, p) && p[0] == a && p.last() == b;
        assert forall|i: int| 0 <= i < p.len() - 1 implies links(deps, #[trigger] p[i], p[i + 1]) by {
            assert(es.contains((p[i], p[i + 1])));
        }
        assert(way_along(deps, p));
    }
    if depends_in_turn(deps, a, b) {
        let p = choose|p: Seq<Seq<char>>| #[trigger] way_along(deps, p) && p[0] == a && p.last() == b;
        assert forall|i: int| 0 <= i < p.len() - 1 implies es.contains((#[trigger] p[i], p[i + 1])) by {
            assert(links(deps, p[i], p[i + 1]));
        }
        assert(chain(es, p));
    }
}

proof fn turns_join(deps: Seq<(Seq<char>, Names)>, a: Seq<char>, b: Seq<char>, c: Seq<char>)
    requires
        depends_in_turn(deps, a, b),
        depends_in_turn(deps, b, c),
    ensures
        depends_in_turn(deps, a, c),
{
    let p = choose|p: Seq<Seq<char>>| #[trigger] way_along(deps, p) && p[0] == a && p.last() == b;
    let q = choose|q: Seq<Seq<char>>| #[trigger] way_along(deps, q) && q[0] == b && q.last() == c;
    let r = p.drop_last() + q;
    assert forall|i: int| 0 <= i < r.len() - 1 implies links(deps, #[trigger] r[i], r[i + 1]) by {
        let n = p.len() - 1;
        if i + 1 < n {
            assert(r[i] == p[i] && r[i + 1] == p[i + 1]);
        } else if i < n {
            assert(r[i] == p[i] && r[i + 1] == q[0] && q[0] == p[i + 1]);
        } else {
            assert(r[i] == q[i - n] && r[i + 1] == q[i - n + 1]);
        }
    }
    assert(way_along(deps, r));
    assert(r[0] == a);
    assert(r.last() == c);
}

proof fn on_the_way(
    deps: Seq<(Seq<char>, Names)>,
    es: Seq<(Seq<char>, Seq<char>)>,
    a: Seq<char>,
    b: Seq<char>,
)
    requires
        links_exactly(deps, es),
        a != b,
        depends_in_turn(deps, a, b),
    ensures
        endpoints(es).contains(a),
{
    let p = choose|p: Seq<Seq<char>>| #[trigger] way_along(deps, p) && p[0] == a && p.last() == b;
    assert(p.len() > 1);
    assert(links(deps, p[0], p[1]));
    assert(es.contains((p[0], p[1])));
    let i = choose|i: int| 0 <= i < es.len() && es[i] == (p[0], p[1]);
    let one = ends_of(es);
    assert(one(i)[0] == a);
    assert(one(i).contains(a));
    gather_contains(es.len() as int, one, a);
}

proof fn groups_alike(
    deps: Seq<(Seq<char>, Names)>,
    es: Seq<(Seq<char>, Seq<char>)>,
    names: Seq<Seq<char>>,
    i: int,
    j: int,
)
    requires
        links_exactly(deps, es),
        0 <= i < names.len(),
        0 <= j < names.len(),
        depends_in_turn(deps, names[i], names[j]),
        depends_in_turn(deps, names[j], names[i]),
    ensures
        gather(names.len() as int, tangled(es, names, i)) == gather(
            names.len() as int,
            tangled(es, names, j),
        ),
{
    let n = names.len() as int;
    let a = names[i];
    let f = names[j];
    let one = tangled(es, names, i);
    let two = tangled(es, names, j);
    assert forall|k: int| 0 <= k < n implies #[trigger] one(k) == two(k) by {
        let y = names[k];
        leads_is_in_turn(deps, es, a, y);
        leads_is_in_turn(deps, es, y, a);
        leads_is_in_turn(deps, es, f, y);
        leads_is_in_turn(deps, es, y, f);
        if mutual(es, a, y) {
            turns_join(deps, f, a, y);
            turns_join(deps, y, a, f);
        }
        if mutual(es, f, y) {
            turns_join(deps, a, f, y);
            turns_join(deps, y, f, a);
        }
    }
    crate::text::gather_same(n, one, two);
}

/// Two files that depend on each other, directly or in turn, stand in one group.
#[verifier::spinoff_prover]
#[verifier::rlimit(60)]
pub proof fn mutual_files_stand_together(
    deps: Seq<(Seq<char>, Names)>,
    cs: Seq<Seq<Seq<char>>>,
    a: Seq<char>,
    b: Seq<char>,
)
    requires
        lists_cycles(deps, cs),
        a != b,
        depends_in_turn(deps, a, b),
        depends_in_turn(deps, b, a),
    ensures
        exists|k: int| 0 <= k < cs.len() && (#[trigger] cs[k]).contains(a) && cs[k].contains(b),
{
    let es = choose|es: Seq<(Seq<char>, Seq<char>)>|
        links_exactly(deps, es) && #[trigger] tangles_of(cs, es);
    let names = choose|names: Seq<Seq<char>>| #[trigger]
        sorted_set(names, endpoints(es)) && cs == gather(names.len() as int, tangle(es, names));
    let n = names.len() as int;
    on_the_way(deps, es, a, b);
    on_the_way(deps, es, b, a);
    assert(names.contains(a) && names.contains(b));
    let i = choose|i: int| 0 <= i < n && names[i] == a;
    let group = gather(n, tangled(es, names, i));
    group_holds(es, names, i, a);
    group_holds(es, names, i, b);
    group_holds(es, names, i, group[0]);
    leads_is_in_turn(deps, es, a, b);
    leads_is_in_turn(deps, es, b, a);
    leads_is_in_turn(deps, es, a, a);
    turns_join(deps, a, b, a);
    assert(group.contains(a) && group.contains(b));
    let f = group[0];
    assert(group.contains(f));
    let j = choose|j: int| 0 <= j < n && names[j] == f;
    leads_is_in_turn(deps, es, a, f);
    leads_is_in_turn(deps, es, f, a);
    groups_alike(deps, es, names, i, j);
    assert(group.len() > 1) by {
        let x = choose|x: int| 0 <= x < group.len() && group[x] == a;
        let y = choose|y: int| 0 <= y < group.len() && group[y] == b;
    }
    assert((tangle(es, names))(j)[0] == group);
    assert((tangle(es, names))(j).contains(group));
    gather_contains(n, tangle(es, names), group);
    let k = choose|k: int| 0 <= k < cs.len() && cs[k] == group;
    assert(cs[k].contains(a));
}

proof fn group_holds(
    es: Seq<(Seq<char>, Seq<char>)>,
    names: Seq<Seq<char>>,
    i: int,
    x: Seq<char>,
)
    requires
        0 <= i < names.len(),
    ensures
        gather(names.len() as int, tangled(es, names, i)).contains(x) <==> names.contains(x) && mutual(
            es,
            names[i],
            x,
        ),
{
    let one = tangled(es, names, i);
    let n = names.len() as int;
    gather_contains(n, one, x);
    if gather(n, one).contains(x) {
        let k = choose|k: int| 0 <= k < n && (#[trigger] one(k)).contains(x);
        let found = one(k);
        let m = choose|m: int| 0 <= m < found.len() && found[m] == x;
        assert(names[k] == x);
    }
    if names.contains(x) && mutual(es, names[i], x) {
        let k = choose|k: int| 0 <= k < n && names[k] == x;
        assert(one(k)[0] == x);
        assert(one(k).contains(x));
    }
}

/// A group has at least two files, and any two files of it depend on each other, directly or in
/// turn.
pub proof fn groups_depend_in_turn(
    deps: Seq<(Seq<char>, Names)>,
    cs: Seq<Seq<Seq<char>>>,
    k: int,
    a: Seq<char>,
    b: Seq<char>,
)
    requires
        lists_cycles(deps, cs),
        0 <= k < cs.len(),
        cs[k].contains(a),
        cs[k].contains(b),
    ensures
        cs[k].len() > 1,
        depends_in_turn(deps, a, b),
{
    let es = choose|es: Seq<(Seq<char>, Seq<char>)>|
        links_exactly(deps, es) && #[trigger] tangles_of(cs, es);
    let names = choose|names: Seq<Seq<char>>| #[trigger]
        sorted_set(names, endpoints(es)) && cs == gather(names.len() as int, tangle(es, names));
    let n = names.len() as int;
    let g = cs[k];
    assert(cs.contains(g));
    gather_contains(n, tangle(es, names), g);
    let i = choose|i: int| 0 <= i < n && (#[trigger] (tangle(es, names))(i)).contains(g);
    let found = (tangle(es, names))(i);
    let m = choose|m: int| 0 <= m < found.len() && found[m] == g;
    group_holds(es, names, i, a);
    group_holds(es, names, i, b);
    leads_is_in_turn(deps, es, names[i], b);
    leads_is_in_turn(deps, es, a, names[i]);
    turns_join(deps, a, names[i], b);
}

} // verus!
