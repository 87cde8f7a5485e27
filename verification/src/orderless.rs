//! What does not depend on the order in which a blueprint is written: what is wrong with it, the
//! identity of its shape, and whether a lock holds.
use vstd::prelude::*;

use crate::blueprint::{
    all_id_errors, all_unsafe_errors, covers_all, first_slot, id_errors, last_port, unknown_errors,
    unsafe_errors, Blueprint, CompatibilityPolicy, Implementation, Port, Slot, WitnessKind,
    WitnessResult,
};
use crate::links::{chain, looped};
use crate::order::{
    arranged_facts, arranged_permuted, name_rank, name_rank_injective, sorted_set,
    sorted_set_is_canonical, strictly_ascending, Ranked,
};
use crate::shape::{
    adapter_views, flow_view, flow_views, implementation_views, pair_rank, port_view, port_views,
    slot_view, slot_views, witness_views, AdapterView, BlueprintLock, ImplementationView, PortView,
    SlotView, WitnessView,
};
use crate::text::{concat_contains, gather, gather_contains, gather_same, texts, trimmed};

verus! {

impl Blueprint {
    /// Whether no two slots share an id, and no two ports.
    pub open spec fn distinct(self) -> bool {
        self.slot_ids().no_duplicates() && self.port_ids().no_duplicates()
    }

    /// Whether another blueprint has the same id and the same slots, ports, flows, implementations,
    /// adapters and witnesses, each list in whatever order.
    pub open spec fn rearranges(self, other: Blueprint) -> bool {
        &&& self.meta.id@ == other.meta.id@
        &&& slot_views(self.slots@).to_multiset() == slot_views(other.slots@).to_multiset()
        &&& port_views(self.ports@).to_multiset() == port_views(other.ports@).to_multiset()
        &&& flow_views(self.flows@).to_multiset() == flow_views(other.flows@).to_multiset()
        &&& implementation_views(self.implementations@).to_multiset() == implementation_views(
            other.implementations@,
        ).to_multiset()
        &&& adapter_views(self.adapters@).to_multiset() == adapter_views(
            other.adapters@,
        ).to_multiset()
        &&& witness_views(self.witnesses@).to_multiset() == witness_views(
            other.witnesses@,
        ).to_multiset()
    }
}

// ── rearranged lists ───────────────────────────────────────────────────────────────────

/// What a list holds, a rearranged list holds too.
proof fn moved_to<T>(a: Seq<T>, b: Seq<T>, i: int) -> (j: int)
    requires
        a.to_multiset() == b.to_multiset(),
        0 <= i < a.len(),
    ensures
        0 <= j < b.len(),
        b[j] == a[i],
{
    broadcast use vstd::seq_lib::group_to_multiset_ensures;

    assert(a.contains(a[i]));
    assert(b.to_multiset().count(a[i]) > 0);
    assert(b.contains(a[i]));
    choose|j: int| 0 <= j < b.len() && b[j] == a[i]
}

proof fn same_members<T>(a: Seq<T>, b: Seq<T>)
    requires
        a.to_multiset() == b.to_multiset(),
    ensures
        forall|x: T| #[trigger] a.contains(x) <==> b.contains(x),
{
    broadcast use vstd::seq_lib::group_to_multiset_ensures;

    assert forall|x: T| #[trigger] a.contains(x) <==> b.contains(x) by {
        assert(a.contains(x) <==> a.to_multiset().count(x) > 0);
        assert(b.contains(x) <==> b.to_multiset().count(x) > 0);
    }
}

/// What a list holds twice, a rearranged list holds twice too.
proof fn twice<T>(a: Seq<T>, b: Seq<T>, i: int, j: int) -> (r: (int, int))
    requires
        a.to_multiset() == b.to_multiset(),
        0 <= j < i < a.len(),
        a[j] == a[i],
    ensures
        0 <= r.0 < r.1 < b.len(),
        b[r.0] == a[i],
        b[r.1] == a[i],
{
    broadcast use vstd::seq_lib::group_to_multiset_ensures;

    let v = a[i];
    let p = moved_to(a, b, i);
    let c = a.remove(i);
    let d = b.remove(p);
    assert(c[j] == v);
    assert(c.to_multiset() =~= a.to_multiset().remove(v));
    assert(d.to_multiset() =~= b.to_multiset().remove(v));
    let q = moved_to(c, d, j);
    if q < p {
        assert(d[q] == b[q]);
        (q, p)
    } else {
        assert(d[q] == b[q + 1]);
        (p, q + 1)
    }
}

proof fn distinct_moves<T>(a: Seq<T>, b: Seq<T>)
    requires
        a.to_multiset() == b.to_multiset(),
        a.no_duplicates(),
    ensures
        b.no_duplicates(),
{
    assert forall|i: int, j: int| 0 <= i < b.len() && 0 <= j < b.len() && i != j implies b[i]
        != b[j] by {
        if b[i] == b[j] {
            let r = if j < i {
                twice(b, a, i, j)
            } else {
                twice(b, a, j, i)
            };
            assert(a[r.0] == a[r.1]);
        }
    }
}

/// Whether `p` is a part of a concatenation.
spec fn is_part<T>(p: Seq<T>, m: int, g: spec_fn(int) -> Seq<T>) -> bool {
    exists|j: int| 0 <= j < m && #[trigger] g(j) == p
}

/// Where each part of one concatenation is a part of another, so is what it holds.
proof fn parts_within<T>(n: int, f: spec_fn(int) -> Seq<T>, m: int, g: spec_fn(int) -> Seq<T>, x: T)
    requires
        forall|i: int| 0 <= i < n ==> is_part(#[trigger] f(i), m, g),
    ensures
        gather(n, f).contains(x) ==> gather(m, g).contains(x),
{
    gather_contains(n, f, x);
    gather_contains(m, g, x);
    if gather(n, f).contains(x) {
        let i = choose|i: int| 0 <= i < n && (#[trigger] f(i)).contains(x);
        assert(is_part(f(i), m, g));
        let j = choose|j: int| 0 <= j < m && #[trigger] g(j) == f(i);
        assert(g(j).contains(x));
    }
}

/// Equal collections stay equal under a map.
proof fn mapped_multiset<A, B>(s: Seq<A>, t: Seq<A>, f: spec_fn(A) -> B)
    requires
        s.to_multiset() == t.to_multiset(),
    ensures
        s.map_values(f).to_multiset() == t.map_values(f).to_multiset(),
    decreases s.len(),
{
    broadcast use vstd::seq_lib::group_to_multiset_ensures;

    assert(s.to_multiset().len() == s.len());
    assert(t.to_multiset().len() == t.len());
    if s.len() > 0 {
        let x = s.last();
        assert(s.contains(x));
        assert(t.to_multiset().count(x) > 0);
        assert(t.contains(x));
        let i = choose|i: int| 0 <= i < t.len() && t[i] == x;
        let a = s.drop_last();
        let b = t.remove(i);
        assert(s =~= a.push(x));
        assert(a.to_multiset() =~= s.to_multiset().remove(x));
        assert(b.to_multiset() =~= t.to_multiset().remove(x));
        mapped_multiset(a, b, f);
        assert(s.map_values(f) =~= a.map_values(f).push(f(x)));
        assert(b.map_values(f) =~= t.map_values(f).remove(i));
        assert(t.map_values(f)[i] == f(x));
        assert(t.map_values(f).to_multiset() =~= b.map_values(f).to_multiset().insert(f(x)));
    } else {
        assert(t.len() == 0);
        assert(s.map_values(f) =~= t.map_values(f));
    }
}

// ── ids ────────────────────────────────────────────────────────────────────────────────

proof fn id_errors_move(kind: Seq<char>, a: Seq<Seq<char>>, b: Seq<Seq<char>>, x: Seq<char>)
    requires
        a.to_multiset() == b.to_multiset(),
    ensures
        all_id_errors(kind, a).contains(x) ==> all_id_errors(kind, b).contains(x),
        all_unsafe_errors(kind, a).contains(x) ==> all_unsafe_errors(kind, b).contains(x),
{
    let f = id_errors(kind, a);
    let g = id_errors(kind, b);
    assert forall|i: int| 0 <= i < a.len() && (#[trigger] f(i)).len() > 0 implies exists|j: int|
        0 <= j < b.len() && #[trigger] g(j) == f(i) by {
        if trimmed(a[i]).len() == 0 {
            let j = moved_to(a, b, i);
            assert(g(j) == f(i));
        } else {
            let k = choose|k: int| 0 <= k < i && #[trigger] a[k] == a[i];
            let r = twice(a, b, i, k);
            assert(b[r.0] == b[r.1]);
            assert(g(r.1) == f(i));
        }
    }
    gather_contains(a.len() as int, f, x);
    gather_contains(b.len() as int, g, x);
    if all_id_errors(kind, a).contains(x) {
        let i = choose|i: int| 0 <= i < a.len() && (#[trigger] f(i)).contains(x);
        let j = choose|j: int| 0 <= j < b.len() && #[trigger] g(j) == f(i);
        assert(g(j).contains(x));
    }
    let u = unsafe_errors(kind, a);
    let v = unsafe_errors(kind, b);
    assert forall|i: int| 0 <= i < a.len() implies is_part(
            #[trigger] u(i),
            b.len() as int,
            v,
        ) by {
        let j = moved_to(a, b, i);
        assert(v(j) == u(i));
    }
    parts_within(a.len() as int, u, b.len() as int, v, x);
}

impl Blueprint {
    /// Rearranging a blueprint rearranges its ids.
    proof fn ids_move(self, other: Blueprint)
        requires
            self.rearranges(other),
        ensures
            self.slot_ids().to_multiset() == other.slot_ids().to_multiset(),
            self.port_ids().to_multiset() == other.port_ids().to_multiset(),
            self.implementation_ids().to_multiset() == other.implementation_ids().to_multiset(),
            self.adapter_ids().to_multiset() == other.adapter_ids().to_multiset(),
            self.adapter_sources().to_multiset() == other.adapter_sources().to_multiset(),
            self.witness_ids().to_multiset() == other.witness_ids().to_multiset(),
    {
        let s = |v: SlotView| v.id;
        mapped_multiset(slot_views(self.slots@), slot_views(other.slots@), s);
        assert(slot_views(self.slots@).map_values(s) =~= self.slot_ids());
        assert(slot_views(other.slots@).map_values(s) =~= other.slot_ids());
        let p = |v: PortView| v.id;
        mapped_multiset(port_views(self.ports@), port_views(other.ports@), p);
        assert(port_views(self.ports@).map_values(p) =~= self.port_ids());
        assert(port_views(other.ports@).map_values(p) =~= other.port_ids());
        let m = |v: ImplementationView| v.id;
        mapped_multiset(
            implementation_views(self.implementations@),
            implementation_views(other.implementations@),
            m,
        );
        assert(implementation_views(self.implementations@).map_values(m)
            =~= self.implementation_ids());
        assert(implementation_views(other.implementations@).map_values(m)
            =~= other.implementation_ids());
        let a = |v: AdapterView| v.id;
        mapped_multiset(adapter_views(self.adapters@), adapter_views(other.adapters@), a);
        assert(adapter_views(self.adapters@).map_values(a) =~= self.adapter_ids());
        assert(adapter_views(other.adapters@).map_values(a) =~= other.adapter_ids());
        let f = |v: AdapterView| v.from;
        mapped_multiset(adapter_views(self.adapters@), adapter_views(other.adapters@), f);
        assert(adapter_views(self.adapters@).map_values(f) =~= self.adapter_sources());
        assert(adapter_views(other.adapters@).map_values(f) =~= other.adapter_sources());
        let w = |v: WitnessView| v.id;
        mapped_multiset(witness_views(self.witnesses@), witness_views(other.witnesses@), w);
        assert(witness_views(self.witnesses@).map_values(w) =~= self.witness_ids());
        assert(witness_views(other.witnesses@).map_values(w) =~= other.witness_ids());
    }

    /// An id names the same port in a rearranged blueprint.
    proof fn port_moves(self, other: Blueprint, id: Seq<char>)
        requires
            self.rearranges(other),
            self.distinct(),
            other.distinct(),
        ensures
            match (self.port(id), other.port(id)) {
                (Some(p), Some(q)) => port_view(p) == port_view(q),
                (None, None) => true,
                _ => false,
            },
    {
        let a = port_views(self.ports@);
        let b = port_views(other.ports@);
        last_port_facts(self.ports@, id, self.ports@.len() as int);
        last_port_facts(other.ports@, id, other.ports@.len() as int);
        if let Some(p) = self.port(id) {
            let k = choose|k: int|
                0 <= k < self.ports@.len() && #[trigger] self.ports@[k] == p && p.id@ == id;
            let j = moved_to(a, b, k);
            assert(b[j] == port_view(p));
            assert(other.ports@[j].id@ == id);
            let q = other.port(id)->0;
            let n = choose|n: int|
                0 <= n < other.ports@.len() && #[trigger] other.ports@[n] == q && q.id@ == id;
            assert(other.port_ids()[n] == other.port_ids()[j]);
            assert(n == j);
        } else if let Some(q) = other.port(id) {
            let n = choose|n: int|
                0 <= n < other.ports@.len() && #[trigger] other.ports@[n] == q && q.id@ == id;
            let j = moved_to(b, a, n);
            assert(a[j] == port_view(q));
            assert(self.ports@[j].id@ == id);
        }
    }

    /// An id names the same slot in a rearranged blueprint.
    proof fn slot_moves(self, other: Blueprint, id: Seq<char>)
        requires
            self.rearranges(other),
            self.distinct(),
            other.distinct(),
        ensures
            match (first_slot(self.slots@, id, 0), first_slot(other.slots@, id, 0)) {
                (Some(p), Some(q)) => slot_view(p) == slot_view(q),
                (None, None) => true,
                _ => false,
            },
    {
        let a = slot_views(self.slots@);
        let b = slot_views(other.slots@);
        first_slot_facts(self.slots@, id, 0);
        first_slot_facts(other.slots@, id, 0);
        if let Some(p) = first_slot(self.slots@, id, 0) {
            let k = choose|k: int|
                0 <= k < self.slots@.len() && #[trigger] self.slots@[k] == p && p.id@ == id;
            let j = moved_to(a, b, k);
            assert(b[j] == slot_view(p));
            assert(other.slots@[j].id@ == id);
            let q = first_slot(other.slots@, id, 0)->0;
            let n = choose|n: int|
                0 <= n < other.slots@.len() && #[trigger] other.slots@[n] == q && q.id@ == id;
            assert(other.slot_ids()[n] == other.slot_ids()[j]);
            assert(n == j);
        } else if let Some(q) = first_slot(other.slots@, id, 0) {
            let n = choose|n: int|
                0 <= n < other.slots@.len() && #[trigger] other.slots@[n] == q && q.id@ == id;
            let j = moved_to(b, a, n);
            assert(a[j] == slot_view(q));
            assert(self.slots@[j].id@ == id);
        }
    }
}

proof fn last_port_facts(ports: Seq<Port>, id: Seq<char>, n: int)
    requires
        0 <= n <= ports.len(),
    ensures
        match last_port(ports, id, n) {
            Some(p) => exists|k: int| 0 <= k < n && #[trigger] ports[k] == p && p.id@ == id,
            None => forall|k: int| 0 <= k < n ==> (#[trigger] ports[k]).id@ != id,
        },
    decreases n,
{
    if n > 0 {
        last_port_facts(ports, id, n - 1);
        if ports[n - 1].id@ == id {
            assert(ports[n - 1] == last_port(ports, id, n)->0);
        }
    }
}

proof fn first_slot_facts(slots: Seq<Slot>, id: Seq<char>, i: int)
    requires
        0 <= i,
    ensures
        match first_slot(slots, id, i) {
            Some(p) => exists|k: int| i <= k < slots.len() && #[trigger] slots[k] == p && p.id@ == id,
            None => forall|k: int| i <= k < slots.len() ==> (#[trigger] slots[k]).id@ != id,
        },
    decreases slots.len() - i,
{
    if i < slots.len() {
        if slots[i].id@ == id {
            assert(slots[i] == first_slot(slots, id, i)->0);
        } else {
            first_slot_facts(slots, id, i + 1);
        }
    }
}

// ── what is wrong ──────────────────────────────────────────────────────────────────────

impl Blueprint {
    proof fn identity_moves(self, other: Blueprint, x: Seq<char>)
        requires
            self.rearranges(other),
        ensures
            self.identity_errors().contains(x) ==> other.identity_errors().contains(x),
    {
        self.ids_move(other);
        let (s, t) = (self.slot_ids(), other.slot_ids());
        let (p, q) = (self.port_ids(), other.port_ids());
        let (m, n) = (self.implementation_ids(), other.implementation_ids());
        let (a, b) = (self.adapter_ids(), other.adapter_ids());
        let (v, w) = (self.witness_ids(), other.witness_ids());
        id_errors_move("slot"@, s, t, x);
        id_errors_move("port"@, p, q, x);
        id_errors_move("implementation"@, m, n, x);
        id_errors_move("adapter"@, a, b, x);
        id_errors_move("witness"@, v, w, x);
        self.identity_parts(x);
        other.identity_parts(x);
    }

    /// What is wrong with ids is wrong with the id of the blueprint or with those of one kind.
    proof fn identity_parts(self, x: Seq<char>)
        ensures
            self.identity_errors().contains(x) <==> {
                ||| trimmed(self.meta.id@).len() == 0 && x == "blueprint id must not be empty"@
                ||| all_id_errors("slot"@, self.slot_ids()).contains(x)
                ||| all_id_errors("port"@, self.port_ids()).contains(x)
                ||| all_id_errors("implementation"@, self.implementation_ids()).contains(x)
                ||| all_id_errors("adapter"@, self.adapter_ids()).contains(x)
                ||| all_id_errors("witness"@, self.witness_ids()).contains(x)
                ||| all_unsafe_errors("slot"@, self.slot_ids()).contains(x)
                ||| all_unsafe_errors("port"@, self.port_ids()).contains(x)
            },
    {
        let e0 = if trimmed(self.meta.id@).len() == 0 {
            seq!["blueprint id must not be empty"@]
        } else {
            seq![]
        };
        let e1 = all_id_errors("slot"@, self.slot_ids());
        let e2 = all_id_errors("port"@, self.port_ids());
        let e3 = all_id_errors("implementation"@, self.implementation_ids());
        let e4 = all_id_errors("adapter"@, self.adapter_ids());
        let e5 = all_id_errors("witness"@, self.witness_ids());
        let e6 = all_unsafe_errors("slot"@, self.slot_ids());
        let e7 = all_unsafe_errors("port"@, self.port_ids());
        concat_contains(e0, e1, x);
        concat_contains(e0 + e1, e2, x);
        concat_contains(e0 + e1 + e2, e3, x);
        concat_contains(e0 + e1 + e2 + e3, e4, x);
        concat_contains(e0 + e1 + e2 + e3 + e4, e5, x);
        concat_contains(e0 + e1 + e2 + e3 + e4 + e5, e6, x);
        concat_contains(e0 + e1 + e2 + e3 + e4 + e5 + e6, e7, x);
        if trimmed(self.meta.id@).len() == 0 {
            assert(e0[0] == "blueprint id must not be empty"@);
            assert(e0.contains(x) <==> x == "blueprint id must not be empty"@);
        }
    }

    proof fn ports_move(self, other: Blueprint, x: Seq<char>)
        requires
            self.rearranges(other),
        ensures
            gather(self.ports@.len() as int, self.port_errors()).contains(x) ==> gather(
                other.ports@.len() as int,
                other.port_errors(),
            ).contains(x),
    {
        let f = self.port_errors();
        let g = other.port_errors();
        self.ids_move(other);
        same_members(self.slot_ids(), other.slot_ids());
        assert forall|i: int| 0 <= i < self.ports@.len() implies is_part(
            #[trigger] f(i),
            other.ports@.len() as int,
            g,
        ) by {
            let j = moved_to(port_views(self.ports@), port_views(other.ports@), i);
            assert(port_view(self.ports@[i]) == port_view(other.ports@[j]));
            assert(g(j) == f(i));
        }
        parts_within(self.ports@.len() as int, f, other.ports@.len() as int, g, x);
    }

    proof fn flows_move(self, other: Blueprint, x: Seq<char>)
        requires
            self.rearranges(other),
            self.distinct(),
            other.distinct(),
        ensures
            gather(self.flows@.len() as int, self.flow_errors()).contains(x) ==> gather(
                other.flows@.len() as int,
                other.flow_errors(),
            ).contains(x),
    {
        let f = self.flow_errors();
        let g = other.flow_errors();
        assert forall|i: int| 0 <= i < self.flows@.len() implies is_part(
            #[trigger] f(i),
            other.flows@.len() as int,
            g,
        ) by {
            let j = moved_to(flow_views(self.flows@), flow_views(other.flows@), i);
            assert(flow_view(self.flows@[i]) == flow_view(other.flows@[j]));
            self.port_moves(other, self.flows@[i].from@);
            self.port_moves(other, self.flows@[i].to@);
            assert(g(j) == f(i));
        }
        parts_within(self.flows@.len() as int, f, other.flows@.len() as int, g, x);
    }

    proof fn links_move(self, other: Blueprint)
        requires
            self.rearranges(other),
            self.distinct(),
            other.distinct(),
        ensures
            looped(self.flow_links()) ==> looped(other.flow_links()),
    {
        let f = self.flow_link();
        let g = other.flow_link();
        let a = self.flow_links();
        let b = other.flow_links();
        assert forall|i: int| 0 <= i < self.flows@.len() implies is_part(
            #[trigger] f(i),
            other.flows@.len() as int,
            g,
        ) by {
            let j = moved_to(flow_views(self.flows@), flow_views(other.flows@), i);
            assert(flow_view(self.flows@[i]) == flow_view(other.flows@[j]));
            self.port_moves(other, self.flows@[i].from@);
            self.port_moves(other, self.flows@[i].to@);
            assert(g(j) == f(i));
        }
        assert forall|l: (Seq<char>, Seq<char>)| #[trigger] a.contains(l) implies b.contains(l) by {
            parts_within(self.flows@.len() as int, f, other.flows@.len() as int, g, l);
        }
        if looped(a) {
            let p = choose|p: Seq<Seq<char>>| #[trigger]
                chain(a, p) && p.len() >= 2 && p[0] == p.last();
            assert(chain(b, p));
        }
    }

    proof fn differential_moves(self, other: Blueprint, m: Implementation, n: Implementation)
        requires
            self.rearranges(other),
            m@ == n@,
        ensures
            self.differential(m) ==> other.differential(n),
    {
        if self.differential(m) {
            let a = witness_views(self.witnesses@);
            let b = witness_views(other.witnesses@);
            let k = choose|k: int|
                0 <= k < self.witnesses@.len() && (#[trigger] self.witnesses@[k]).kind
                    == WitnessKind::Differential && covers_all(
                    self.witnesses@[k],
                    m,
                );
            let j = moved_to(a, b, k);
            let w = other.witnesses@[j];
            assert(w@ == self.witnesses@[k]@);
            assert(texts(m.slots@) == texts(n.slots@));
            assert(texts(m.slots@).len() == m.slots@.len());
            assert(texts(n.slots@).len() == n.slots@.len());
            assert forall|i: int| 0 <= i < n.slots@.len() implies texts(w.covers@).contains(
                #[trigger] n.slots@[i]@,
            ) by {
                assert(texts(n.slots@)[i] == texts(m.slots@)[i]);
                assert(texts(m.slots@)[i] == m.slots@[i]@);
                assert(texts(n.slots@)[i] == n.slots@[i]@);
            }
            assert(covers_all(w, n));
        }
    }

    proof fn implementation_moves(self, other: Blueprint, i: int, j: int)
        requires
            self.rearranges(other),
            other.rearranges(self),
            self.distinct(),
            other.distinct(),
            0 <= i < self.implementations@.len(),
            0 <= j < other.implementations@.len(),
            self.implementations@[i]@ == other.implementations@[j]@,
        ensures
            (self.implementation_errors())(i) == (other.implementation_errors())(j),
    {
        let m = self.implementations@[i];
        let n = other.implementations@[j];
        let ts = texts(m.slots@);
        let count = m.slots@.len() as int;
        assert(ts.len() == m.slots@.len());
        assert(ts == texts(n.slots@));
        assert(n.slots@.len() == count);
        self.ids_move(other);
        same_members(self.slot_ids(), other.slot_ids());
        let before = "implementation '"@ + m.id@ + "': slot '"@;
        let u = unknown_errors(ts, self.slot_ids(), before, "' does not exist"@);
        let v = unknown_errors(ts, other.slot_ids(), before, "' does not exist"@);
        assert forall|k: int| 0 <= k < count implies #[trigger] u(k) == v(k) by {}
        gather_same(count, u, v);
        let f = self.fusion_errors(m);
        let g = other.fusion_errors(n);
        assert forall|k: int| 0 <= k < count implies #[trigger] f(k) == g(k) by {
            assert(ts[k] == m.slots@[k]@);
            assert(texts(n.slots@)[k] == n.slots@[k]@);
            self.slot_moves(other, m.slots@[k]@);
        }
        gather_same(count, f, g);
        self.differential_moves(other, m, n);
        other.differential_moves(self, n, m);
    }

    proof fn implementations_move(self, other: Blueprint, x: Seq<char>)
        requires
            self.rearranges(other),
            other.rearranges(self),
            self.distinct(),
            other.distinct(),
        ensures
            gather(self.implementations@.len() as int, self.implementation_errors()).contains(x)
                ==> gather(other.implementations@.len() as int, other.implementation_errors()).contains(
                x,
            ),
    {
        let f = self.implementation_errors();
        let g = other.implementation_errors();
        assert forall|i: int| 0 <= i < self.implementations@.len() implies is_part(
            #[trigger] f(i),
            other.implementations@.len() as int,
            g,
        ) by {
            let j = moved_to(
                implementation_views(self.implementations@),
                implementation_views(other.implementations@),
                i,
            );
            assert(self.implementations@[i]@ == other.implementations@[j]@);
            self.implementation_moves(other, i, j);
            assert(g(j) == f(i));
        }
        parts_within(
            self.implementations@.len() as int,
            f,
            other.implementations@.len() as int,
            g,
            x,
        );
    }

    proof fn adapters_move(self, other: Blueprint, x: Seq<char>)
        requires
            self.rearranges(other),
        ensures
            gather(self.adapters@.len() as int, self.adapter_errors()).contains(x) ==> gather(
                other.adapters@.len() as int,
                other.adapter_errors(),
            ).contains(x),
    {
        let f = self.adapter_errors();
        let g = other.adapter_errors();
        self.ids_move(other);
        same_members(self.port_ids(), other.port_ids());
        same_members(self.adapter_sources(), other.adapter_sources());
        same_members(self.witness_ids(), other.witness_ids());
        assert forall|i: int| 0 <= i < self.adapters@.len() implies is_part(
            #[trigger] f(i),
            other.adapters@.len() as int,
            g,
        ) by {
            let j = moved_to(adapter_views(self.adapters@), adapter_views(other.adapters@), i);
            let a = self.adapters@[i];
            let b = other.adapters@[j];
            assert(a@ == b@);
            let ts = texts(a.witnesses@);
            assert(ts == texts(b.witnesses@));
            assert(ts.len() == a.witnesses@.len() && ts.len() == b.witnesses@.len());
            let before = "adapter '"@ + a.id@ + "': witness '"@;
            let u = unknown_errors(ts, self.witness_ids(), before, "' does not exist"@);
            let v = unknown_errors(ts, other.witness_ids(), before, "' does not exist"@);
            assert forall|k: int| 0 <= k < ts.len() implies #[trigger] u(k) == v(k) by {}
            gather_same(ts.len() as int, u, v);
            assert(self.adapter_port_errors(a) == other.adapter_port_errors(b));
            assert(self.adapter_witness_errors(a) == other.adapter_witness_errors(b));
            assert(g(j) == f(i));
        }
        parts_within(self.adapters@.len() as int, f, other.adapters@.len() as int, g, x);
    }

    proof fn witnesses_move(self, other: Blueprint, x: Seq<char>)
        requires
            self.rearranges(other),
        ensures
            gather(self.witnesses@.len() as int, self.witness_errors()).contains(x) ==> gather(
                other.witnesses@.len() as int,
                other.witness_errors(),
            ).contains(x),
    {
        let f = self.witness_errors();
        let g = other.witness_errors();
        self.ids_move(other);
        same_members(self.slot_ids(), other.slot_ids());
        same_members(self.port_ids(), other.port_ids());
        let k1 = self.slot_ids() + self.port_ids();
        let k2 = other.slot_ids() + other.port_ids();
        assert forall|id: Seq<char>| #[trigger] k1.contains(id) <==> k2.contains(id) by {
            concat_contains(self.slot_ids(), self.port_ids(), id);
            concat_contains(other.slot_ids(), other.port_ids(), id);
        }
        assert forall|i: int| 0 <= i < self.witnesses@.len() implies is_part(
            #[trigger] f(i),
            other.witnesses@.len() as int,
            g,
        ) by {
            let j = moved_to(witness_views(self.witnesses@), witness_views(other.witnesses@), i);
            let a = self.witnesses@[i];
            let b = other.witnesses@[j];
            assert(a@ == b@);
            let ts = texts(a.covers@);
            assert(ts == texts(b.covers@));
            assert(ts.len() == a.covers@.len() && ts.len() == b.covers@.len());
            let before = "witness '"@ + a.id@ + "': target '"@;
            let u = unknown_errors(ts, k1, before, "' does not exist"@);
            let v = unknown_errors(ts, k2, before, "' does not exist"@);
            assert forall|k: int| 0 <= k < ts.len() implies #[trigger] u(k) == v(k) by {}
            gather_same(ts.len() as int, u, v);
            assert(g(j) == f(i));
        }
        parts_within(self.witnesses@.len() as int, f, other.witnesses@.len() as int, g, x);
    }

    /// What is wrong with a shape is wrong in one of its parts.
    proof fn error_parts(self, x: Seq<char>)
        ensures
            self.errors().contains(x) <==> {
                ||| self.identity_errors().contains(x)
                ||| gather(self.ports@.len() as int, self.port_errors()).contains(x)
                ||| gather(self.flows@.len() as int, self.flow_errors()).contains(x)
                ||| gather(self.implementations@.len() as int, self.implementation_errors()).contains(
                    x,
                )
                ||| gather(self.adapters@.len() as int, self.adapter_errors()).contains(x)
                ||| gather(self.witnesses@.len() as int, self.witness_errors()).contains(x)
                ||| self.loop_errors().contains(x)
            },
    {
        let e0 = self.identity_errors();
        let e1 = gather(self.ports@.len() as int, self.port_errors());
        let e2 = gather(self.flows@.len() as int, self.flow_errors());
        let e3 = gather(self.implementations@.len() as int, self.implementation_errors());
        let e4 = gather(self.adapters@.len() as int, self.adapter_errors());
        let e5 = gather(self.witnesses@.len() as int, self.witness_errors());
        let e6 = self.loop_errors();
        concat_contains(e0, e1, x);
        concat_contains(e0 + e1, e2, x);
        concat_contains(e0 + e1 + e2, e3, x);
        concat_contains(e0 + e1 + e2 + e3, e4, x);
        concat_contains(e0 + e1 + e2 + e3 + e4, e5, x);
        concat_contains(e0 + e1 + e2 + e3 + e4 + e5, e6, x);
    }

    proof fn errors_move(self, other: Blueprint, x: Seq<char>)
        requires
            self.rearranges(other),
            self.distinct(),
            other.distinct(),
            self.errors().contains(x),
        ensures
            other.errors().contains(x),
    {
        self.error_parts(x);
        other.error_parts(x);
        self.identity_moves(other, x);
        self.ports_move(other, x);
        self.flows_move(other, x);
        self.implementations_move(other, x);
        self.adapters_move(other, x);
        self.witnesses_move(other, x);
        self.links_move(other);
        assert(self.loop_errors().contains(x) ==> other.loop_errors().contains(x));
    }

    proof fn errors_are_one(self, other: Blueprint)
        requires
            self.rearranges(other),
            self.distinct(),
            other.distinct(),
        ensures
            forall|x: Seq<char>| #[trigger] self.errors().contains(x) <==> other.errors().contains(x),
    {
        assert forall|x: Seq<char>| #[trigger] self.errors().contains(x) <==> other.errors().contains(
            x,
        ) by {
            if self.errors().contains(x) {
                self.errors_move(other, x);
            }
            if other.errors().contains(x) {
                other.errors_move(self, x);
            }
        }
    }

    /// What is wrong with a blueprint does not depend on the order of its lists: where no two slots
    /// and no two ports share an id, a rearranged blueprint is found to have the same errors, listed
    /// the same, in order and each once.
    pub proof fn validate_ignores_order(
        self,
        other: Blueprint,
        errs: Seq<Seq<char>>,
        other_errs: Seq<Seq<char>>,
    )
        requires
            self.distinct(),
            self.rearranges(other),
            sorted_set(errs, self.errors()),
            sorted_set(other_errs, other.errors()),
        ensures
            errs == other_errs,
            strictly_ascending(errs),
    {
        self.ids_move(other);
        distinct_moves(self.slot_ids(), other.slot_ids());
        distinct_moves(self.port_ids(), other.port_ids());
        self.errors_are_one(other);
        assert(sorted_set(errs, other.errors()));
        sorted_set_is_canonical(errs, other.errors());
        sorted_set_is_canonical(other_errs, other.errors());
    }
}

// ── the shape ──────────────────────────────────────────────────────────────────────────

/// A pair of names is known by its rank.
proof fn pair_rank_splits(a: Seq<char>, b: Seq<char>, c: Seq<char>, d: Seq<char>)
    requires
        pair_rank(a, b) == pair_rank(c, d),
    ensures
        a == c,
        b == d,
{
    let x = pair_rank(a, b);
    let y = pair_rank(c, d);
    let ra = name_rank(false, a);
    let rb = name_rank(false, b);
    let rc = name_rank(false, c);
    let rd = name_rank(false, d);
    assert(ra.len() == a.len() && rb.len() == b.len() && rc.len() == c.len() && rd.len() == d.len());
    assert(x[a.len() as int] == -1);
    assert(y[c.len() as int] == -1);
    if a.len() < c.len() {
        assert(y[a.len() as int] == rc[a.len() as int]);
        assert(rc[a.len() as int] >= 0);
    } else if c.len() < a.len() {
        assert(x[c.len() as int] == ra[c.len() as int]);
        assert(ra[c.len() as int] >= 0);
    }
    assert forall|i: int| 0 <= i < ra.len() implies ra[i] == rc[i] by {
        assert(x[i] == ra[i] && y[i] == rc[i]);
    }
    assert(ra =~= rc);
    name_rank_injective(false, a, c);
    assert(x.len() == y.len());
    assert forall|i: int| 0 <= i < rb.len() implies rb[i] == rd[i] by {
        assert(x[a.len() + 1 + i] == rb[i] && y[a.len() + 1 + i] == rd[i]);
    }
    assert(rb =~= rd);
    name_rank_injective(false, b, d);
}

impl Blueprint {
    /// The identity of a shape does not depend on the order in which its slots, the invariants of
    /// each, its ports and its flows are written, where no two slots and no two ports share an id,
    /// and flows with the same ends are the same.
    pub proof fn shape_ignores_order(self, other: Blueprint)
        requires
            self.distinct(),
            forall|i: int, j: int|
                0 <= i < self.flows@.len() && 0 <= j < self.flows@.len() && (
                #[trigger] self.flows@[i]).from@ == (#[trigger] self.flows@[j]).from@
                    && self.flows@[i].to@ == self.flows@[j].to@ ==> flow_view(self.flows@[i])
                    == flow_view(self.flows@[j]),
            slot_views(self.slots@).to_multiset() == slot_views(other.slots@).to_multiset(),
            port_views(self.ports@).to_multiset() == port_views(other.ports@).to_multiset(),
            flow_views(self.flows@).to_multiset() == flow_views(other.flows@).to_multiset(),
        ensures
            self.shape_json() == other.shape_json(),
            self.shape() == other.shape(),
    {
        let a = slot_views(self.slots@);
        assert forall|i: int, j: int|
            0 <= i < a.len() && 0 <= j < a.len() && #[trigger] a[i].rank() == #[trigger] a[j].rank() implies a[i]
            == a[j] by {
            name_rank_injective(false, a[i].id, a[j].id);
            assert(self.slot_ids()[i] == self.slot_ids()[j]);
        }
        arranged_permuted(a, slot_views(other.slots@));
        let p = port_views(self.ports@);
        assert forall|i: int, j: int|
            0 <= i < p.len() && 0 <= j < p.len() && #[trigger] p[i].rank() == #[trigger] p[j].rank() implies p[i]
            == p[j] by {
            name_rank_injective(false, p[i].id, p[j].id);
            assert(self.port_ids()[i] == self.port_ids()[j]);
        }
        arranged_permuted(p, port_views(other.ports@));
        let g = flow_views(self.flows@);
        assert forall|i: int, j: int|
            0 <= i < g.len() && 0 <= j < g.len() && #[trigger] g[i].rank() == #[trigger] g[j].rank() implies g[i]
            == g[j] by {
            pair_rank_splits(g[i].from, g[i].to, g[j].from, g[j].to);
            assert(g[i] == flow_view(self.flows@[i]) && g[j] == flow_view(self.flows@[j]));
        }
        arranged_permuted(g, flow_views(other.flows@));
        self.shape_of_views();
        other.shape_of_views();
    }
}

// ── locks ──────────────────────────────────────────────────────────────────────────────

/// Whether a port is permanent.
spec fn lasting() -> spec_fn(PortView) -> bool {
    |p: PortView| p.compatibility == CompatibilityPolicy::Permanent
}

/// The id of a port.
spec fn id_of() -> spec_fn(PortView) -> Seq<char> {
    |p: PortView| p.id
}

proof fn filtered_multiset<T>(s: Seq<T>, f: spec_fn(T) -> bool)
    ensures
        s.filter(f).to_multiset() == s.to_multiset().filter(f),
    decreases s.len(),
{
    broadcast use vstd::seq_lib::group_to_multiset_ensures;
    broadcast use vstd::multiset::group_multiset_axioms;

    reveal(Seq::filter);
    if s.len() > 0 {
        let d = s.drop_last();
        let x = s.last();
        filtered_multiset(d, f);
        assert(s =~= d.push(x));
        assert(s.to_multiset() =~= d.to_multiset().insert(x));
        assert(s.filter(f).to_multiset() =~= s.to_multiset().filter(f));
    } else {
        assert(s.filter(f) =~= s);
        assert(s.filter(f).to_multiset() =~= s.to_multiset().filter(f));
    }
}

impl Blueprint {
    proof fn lasting_upto(self, n: int)
        requires
            0 <= n <= self.ports@.len(),
        ensures
            gather(n, self.permanent_port()) == port_views(self.ports@).take(n).filter(
                lasting(),
            ).map_values(id_of()),
        decreases n,
    {
        reveal(Seq::filter);
        let v = port_views(self.ports@);
        if n > 0 {
            self.lasting_upto(n - 1);
            assert(v.take(n).drop_last() =~= v.take(n - 1));
            assert(v.take(n).last() == port_view(self.ports@[n - 1]));
            let sub = v.take(n - 1).filter(lasting());
            if self.ports@[n - 1].compatibility == CompatibilityPolicy::Permanent {
                assert(sub.push(v[n - 1]).map_values(id_of()) =~= sub.map_values(id_of()).push(
                    self.ports@[n - 1].id@,
                ));
            }
            assert(gather(n, self.permanent_port()) =~= v.take(n).filter(lasting()).map_values(
                id_of(),
            ));
        } else {
            assert(gather(n, self.permanent_port()) =~= v.take(n).filter(lasting()).map_values(
                id_of(),
            ));
        }
    }

    /// Shapes with the same canonical form have the same permanent ports.
    pub proof fn same_shape_same_permanent(self, other: Blueprint)
        requires
            self.shape_json() == other.shape_json(),
        ensures
            self.permanent() == other.permanent(),
    {
        self.shape_tells_apart(other);
        self.shape_of_views();
        other.shape_of_views();
        let a = port_views(self.ports@);
        let b = port_views(other.ports@);
        arranged_facts(a);
        arranged_facts(b);
        assert(a.to_multiset() == b.to_multiset());
        filtered_multiset(a, lasting());
        filtered_multiset(b, lasting());
        let x = a.filter(lasting());
        let y = b.filter(lasting());
        mapped_multiset(x, y, id_of());
        self.lasting_upto(self.ports@.len() as int);
        other.lasting_upto(other.ports@.len() as int);
        assert(a.take(a.len() as int) =~= a);
        assert(b.take(b.len() as int) =~= b);
        let s = x.map_values(id_of());
        let t = y.map_values(id_of());
        assert forall|i: int, j: int|
            0 <= i < s.len() && 0 <= j < s.len() && #[trigger] s[i].rank() == #[trigger] s[j].rank() implies s[i]
            == s[j] by {
            name_rank_injective(false, s[i], s[j]);
        }
        arranged_permuted(s, t);
    }
}

impl BlueprintLock {
    /// A lock that was made of one blueprint finds nothing wrong with another if and only if the
    /// other is valid, has the same id and the same shape, and its witnesses are the same, in
    /// whatever order. Whatever it finds is listed in order, each once. Two shapes are told apart by
    /// their digests, so those of these two must not collide.
    pub proof fn lock_holds_exactly(
        self,
        b: Blueprint,
        other: Blueprint,
        results: Seq<WitnessResult>,
        errs: Seq<Seq<char>>,
    )
        requires
            b.lockable(results),
            self.pins(b),
            b.shape() == other.shape() ==> b.shape_json() == other.shape_json(),
            sorted_set(errs, other.errors() + self.departures(other)),
        ensures
            errs.len() == 0 <==> {
                &&& other.errors().len() == 0
                &&& other.meta.id@ == b.meta.id@
                &&& other.shape() == b.shape()
                &&& other.sorted_witnesses() == b.sorted_witnesses()
            },
            strictly_ascending(errs),
    {
        let all = other.errors() + self.departures(other);
        self.pins_or_departs(other);
        if b.shape() == other.shape() {
            b.same_shape_same_permanent(other);
        }
        if errs.len() > 0 {
            assert(errs.contains(errs[0]));
            assert(all.contains(errs[0]));
            assert(all.len() > 0);
        }
        if all.len() > 0 {
            assert(all.contains(all[0]));
            assert(errs.contains(all[0]));
        }
    }
}

} // verus!
