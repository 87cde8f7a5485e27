//! When a blueprint is valid, and when one may take over from another.
use vstd::prelude::*;

use crate::blueprint::{
    all_id_errors, all_unsafe_errors, covers_all, first_slot, id_errors, last_port, unknown_errors,
    unsafe_errors, Blueprint, CompatibilityAdapter, CompatibilityPolicy, Direction, Implementation,
    Port, Slot, WitnessKind,
};
use crate::laws::facts::stands_for;
use crate::links::{chain, looped};
use crate::text::{gather, gather_contains, gather_empty, text_opt, texts, trimmed};

verus! {

/// Nothing is gathered where every part is empty, and only there.
pub proof fn gather_none<T>(n: int, f: spec_fn(int) -> Seq<T>)
    ensures
        gather(n, f).len() == 0 <==> forall|i: int| 0 <= i < n ==> (#[trigger] f(i)).len() == 0,
    decreases n,
{
    if n > 0 {
        gather_none(n - 1, f);
        assert(gather(n, f) == gather(n - 1, f) + f(n - 1));
        if gather(n, f).len() == 0 {
            gather_empty(n, f);
        }
    }
}

// ── what makes a blueprint valid ───────────────────────────────────────────────────────

/// Whether several ids are in order: none is blank, and no two are the same.
pub open spec fn proper_ids(ids: Seq<Seq<char>>) -> bool {
    &&& forall|i: int| 0 <= i < ids.len() ==> trimmed(#[trigger] ids[i]).len() > 0
    &&& forall|i: int, j: int| 0 <= i < j < ids.len() ==> #[trigger] ids[i] != #[trigger] ids[j]
}

/// Whether ids hold only ASCII letters and digits, dots, hyphens and underscores.
pub open spec fn plain_ids(ids: Seq<Seq<char>>) -> bool {
    forall|i: int, j: int|
        0 <= i < ids.len() && 0 <= j < ids[i].len() ==> {
            let c = #[trigger] ids[i][j];
            'a' <= c <= 'z' || 'A' <= c <= 'Z' || '0' <= c <= '9' || c == '.' || c == '-' || c == '_'
        }
}

proof fn ids_are_proper(kind: Seq<char>, ids: Seq<Seq<char>>)
    ensures
        all_id_errors(kind, ids).len() == 0 <==> proper_ids(ids),
{
    let f = id_errors(kind, ids);
    gather_none(ids.len() as int, f);
    if all_id_errors(kind, ids).len() == 0 {
        assert forall|i: int| 0 <= i < ids.len() implies trimmed(#[trigger] ids[i]).len() > 0 by {
            assert(f(i).len() == 0);
        }
        assert forall|i: int, j: int| 0 <= i < j < ids.len() implies #[trigger] ids[i]
            != #[trigger] ids[j] by {
            assert(f(j).len() == 0);
            if ids[i] == ids[j] {
                assert(trimmed(ids[j]).len() > 0);
            }
        }
    }
    if proper_ids(ids) {
        assert forall|i: int| 0 <= i < ids.len() implies (#[trigger] f(i)).len() == 0 by {
            assert(trimmed(ids[i]).len() > 0);
        }
    }
}

proof fn ids_are_plain(kind: Seq<char>, ids: Seq<Seq<char>>)
    requires
        proper_ids(ids),
    ensures
        all_unsafe_errors(kind, ids).len() == 0 <==> plain_ids(ids),
{
    let f = unsafe_errors(kind, ids);
    gather_none(ids.len() as int, f);
    assert forall|i: int| 0 <= i < ids.len() implies ids[i].len() > 0 by {
        if ids[i].len() == 0 {
            let e = ids[i];
            crate::text::span_from_bounds(e, crate::text::Class::White, 0);
            assert(crate::text::trimmed_start(e).len() == 0);
            crate::text::back_from_bounds(
                crate::text::trimmed_start(e),
                crate::text::Class::White,
                0,
            );
            assert(trimmed(ids[i]).len() == 0);
        }
    }
    if all_unsafe_errors(kind, ids).len() == 0 {
        assert forall|i: int, j: int| 0 <= i < ids.len() && 0 <= j < ids[i].len() implies {
            let c = #[trigger] ids[i][j];
            'a' <= c <= 'z' || 'A' <= c <= 'Z' || '0' <= c <= '9' || c == '.' || c == '-' || c == '_'
        } by {
            assert(f(i).len() == 0);
            assert(crate::blueprint::safe_id(ids[i]));
        }
    }
    if plain_ids(ids) {
        assert forall|i: int| 0 <= i < ids.len() implies (#[trigger] f(i)).len() == 0 by {
            assert forall|j: int| 0 <= j < ids[i].len() implies {
                let c = #[trigger] ids[i][j];
                crate::text::ascii_alphanumeric(c) || c == '.' || c == '-' || c == '_'
            } by {}
            assert(crate::blueprint::safe_id(ids[i]));
        }
    }
}

proof fn unknown_are(used: Seq<Seq<char>>, known: Seq<Seq<char>>, a: Seq<char>, b: Seq<char>, n: int)
    requires
        n == used.len(),
    ensures
        gather(n, unknown_errors(used, known, a, b)).len() == 0 <==> forall|i: int|
            0 <= i < used.len() ==> known.contains(#[trigger] used[i]),
{
    let f = unknown_errors(used, known, a, b);
    gather_none(n, f);
    if gather(n, f).len() == 0 {
        assert forall|i: int| 0 <= i < used.len() implies known.contains(#[trigger] used[i]) by {
            assert(f(i).len() == 0);
        }
    }
}

/// Whether some port that an id stands for has a direction.
pub open spec fn port_directed(b: Blueprint, id: Seq<char>, d: Direction) -> bool {
    exists|k: int| #[trigger] stands_for(b.ports@, k, id) && b.ports@[k].direction == d
}

/// Whether the first slot with an id allows to be filled together with others.
pub open spec fn fusible(slots: Seq<Slot>, id: Seq<char>) -> bool {
    exists|k: int|
        0 <= k < slots.len() && #[trigger] slots[k].id@ == id && slots[k].allow_fusion && forall|j: int|
            0 <= j < k ==> #[trigger] slots[j].id@ != id
}

/// Whether an implementation is in order: it fills some slots, all of them known; and where it fills
/// several, each of them allows it, and a differential witness covers them all.
pub open spec fn sound_implementation(b: Blueprint, m: Implementation) -> bool {
    &&& m.slots@.len() > 0
    &&& forall|k: int| 0 <= k < m.slots@.len() ==> b.slot_ids().contains((#[trigger] m.slots@[k])@)
    &&& m.slots@.len() > 1 ==> {
        &&& forall|k: int| 0 <= k < m.slots@.len() ==> fusible(b.slots@, (#[trigger] m.slots@[k])@)
        &&& exists|w: int|
            {
                &&& 0 <= w < b.witnesses@.len()
                &&& (#[trigger] b.witnesses@[w]).kind == WitnessKind::Differential
                &&& forall|k: int|
                    0 <= k < m.slots@.len() ==> texts(b.witnesses@[w].covers@).contains(
                        (#[trigger] m.slots@[k])@,
                    )
            }
    }
}

/// Whether an adapter is in order: it leads from a known port to a known port that no adapter leads
/// from, and names witnesses, all of them known.
pub open spec fn sound_adapter(b: Blueprint, a: CompatibilityAdapter) -> bool {
    &&& b.port_ids().contains(a.from@)
    &&& b.port_ids().contains(a.to@)
    &&& forall|k: int| 0 <= k < b.adapters@.len() ==> (#[trigger] b.adapters@[k]).from@ != a.to@
    &&& a.witnesses@.len() > 0
    &&& forall|k: int|
        0 <= k < a.witnesses@.len() ==> b.witness_ids().contains((#[trigger] a.witnesses@[k])@)
}

/// Whether a flow without state leads from one slot into another.
pub open spec fn stateless_flow(b: Blueprint, from: Seq<char>, to: Seq<char>) -> bool {
    exists|i: int, k: int, m: int|
        {
            &&& 0 <= i < b.flows@.len()
            &&& !b.flows@[i].stateful
            &&& #[trigger] stands_for(b.ports@, k, (#[trigger] b.flows@[i]).from@)
            &&& #[trigger] stands_for(b.ports@, m, b.flows@[i].to@)
            &&& b.ports@[k].slot@ == from
            &&& b.ports@[m].slot@ == to
        }
}

/// Whether flows without state lead around: from a slot, perhaps through others, back to it.
pub open spec fn leads_around(b: Blueprint) -> bool {
    exists|p: Seq<Seq<char>>| #[trigger] around(b, p)
}

/// Whether `p` is a way along flows without state that comes back to where it began.
pub open spec fn around(b: Blueprint, p: Seq<Seq<char>>) -> bool {
    &&& p.len() >= 2
    &&& p[0] == p.last()
    &&& forall|i: int| 0 <= i < p.len() - 1 ==> stateless_flow(b, #[trigger] p[i], p[i + 1])
}

/// Whether a blueprint is valid.
pub open spec fn valid(b: Blueprint) -> bool {
    &&& trimmed(b.meta.id@).len() > 0
    &&& proper_ids(b.slot_ids())
    &&& proper_ids(b.port_ids())
    &&& proper_ids(b.implementation_ids())
    &&& proper_ids(b.adapter_ids())
    &&& proper_ids(b.witness_ids())
    &&& plain_ids(b.slot_ids())
    &&& plain_ids(b.port_ids())
    &&& forall|i: int|
        0 <= i < b.ports@.len() ==> b.slot_ids().contains((#[trigger] b.ports@[i]).slot@) && trimmed(
            b.ports@[i].schema@,
        ).len() > 0
    &&& forall|i: int|
        0 <= i < b.flows@.len() ==> port_directed(
            b,
            (#[trigger] b.flows@[i]).from@,
            Direction::Output,
        ) && port_directed(b, b.flows@[i].to@, Direction::Input)
    &&& forall|i: int|
        0 <= i < b.implementations@.len() ==> sound_implementation(
            b,
            #[trigger] b.implementations@[i],
        )
    &&& forall|i: int|
        0 <= i < b.adapters@.len() ==> sound_adapter(b, #[trigger] b.adapters@[i])
    &&& forall|i: int, k: int|
        0 <= i < b.witnesses@.len() && 0 <= k < b.witnesses@[i].covers@.len() ==> b.slot_ids().contains(
            (#[trigger] b.witnesses@[i].covers@[k])@,
        ) || b.port_ids().contains(b.witnesses@[i].covers@[k]@)
    &&& !leads_around(b)
}

proof fn port_stands_for(b: Blueprint, id: Seq<char>)
    ensures
        match b.port(id) {
            Some(p) => exists|k: int| #[trigger] stands_for(b.ports@, k, id) && b.ports@[k] == p,
            None => forall|k: int| !#[trigger] stands_for(b.ports@, k, id),
        },
        forall|k: int| #[trigger] stands_for(b.ports@, k, id) ==> b.port(id) == Some(b.ports@[k]),
{
    last_is(b.ports@, id, b.ports@.len() as int);
    assert forall|k: int| #[trigger] stands_for(b.ports@, k, id) implies b.port(id) == Some(b.ports@[k]) by {
        match b.port(id) {
            Some(p) => {
                let i = choose|i: int|
                    0 <= i < b.ports@.len() && #[trigger] b.ports@[i] == p && p.id@ == id && forall|j: int|
                        i < j < b.ports@.len() ==> (#[trigger] b.ports@[j]).id@ != id;
                if i < k {
                    assert(b.ports@[k].id@ != id);
                } else if k < i {
                    assert(b.ports@[i].id@ != id);
                }
            },
            None => {
                assert(b.ports@[k].id@ != id);
            },
        }
    }
    if b.port(id) is Some {
        let p = b.port(id)->0;
        let i = choose|i: int|
            0 <= i < b.ports@.len() && #[trigger] b.ports@[i] == p && p.id@ == id && forall|j: int|
                i < j < b.ports@.len() ==> (#[trigger] b.ports@[j]).id@ != id;
        assert(stands_for(b.ports@, i, id));
    }
}

proof fn last_is(ports: Seq<Port>, id: Seq<char>, n: int)
    requires
        0 <= n <= ports.len(),
    ensures
        match last_port(ports, id, n) {
            Some(p) => exists|i: int|
                0 <= i < n && #[trigger] ports[i] == p && p.id@ == id && forall|j: int|
                    i < j < n ==> (#[trigger] ports[j]).id@ != id,
            None => forall|j: int| 0 <= j < n ==> (#[trigger] ports[j]).id@ != id,
        },
    decreases n,
{
    if n > 0 {
        last_is(ports, id, n - 1);
        if ports[n - 1].id@ == id {
            assert(ports[n - 1] == last_port(ports, id, n)->0);
        } else {
            match last_port(ports, id, n - 1) {
                Some(p) => {
                    let i = choose|i: int|
                        0 <= i < n - 1 && #[trigger] ports[i] == p && p.id@ == id && forall|j: int|
                            i < j < n - 1 ==> (#[trigger] ports[j]).id@ != id;
                    assert(ports[i] == p);
                },
                None => {},
            }
        }
    }
}

proof fn first_is(slots: Seq<Slot>, id: Seq<char>, i: int)
    requires
        0 <= i,
    ensures
        match first_slot(slots, id, i) {
            Some(s) => exists|k: int|
                i <= k < slots.len() && #[trigger] slots[k].id@ == id && slots[k] == s && forall|j: int|
                    i <= j < k ==> #[trigger] slots[j].id@ != id,
            None => forall|j: int| i <= j < slots.len() ==> #[trigger] slots[j].id@ != id,
        },
    decreases slots.len() - i,
{
    if i < slots.len() {
        if slots[i].id@ == id {
            assert(slots[i].id@ == id);
        } else {
            first_is(slots, id, i + 1);
            match first_slot(slots, id, i + 1) {
                Some(s) => {
                    let k = choose|k: int|
                        i + 1 <= k < slots.len() && #[trigger] slots[k].id@ == id && slots[k] == s
                            && forall|j: int| i + 1 <= j < k ==> #[trigger] slots[j].id@ != id;
                    assert(slots[k].id@ == id);
                },
                None => {},
            }
        }
    }
}

proof fn fusible_is(slots: Seq<Slot>, id: Seq<char>)
    ensures
        fusible(slots, id) <==> first_slot(slots, id, 0) is Some && first_slot(
            slots,
            id,
            0,
        )->0.allow_fusion,
{
    first_is(slots, id, 0);
    if fusible(slots, id) {
        let k = choose|k: int|
            0 <= k < slots.len() && #[trigger] slots[k].id@ == id && slots[k].allow_fusion && forall|
                j: int,
            | 0 <= j < k ==> #[trigger] slots[j].id@ != id;
        match first_slot(slots, id, 0) {
            Some(s) => {
                let i = choose|i: int|
                    0 <= i < slots.len() && #[trigger] slots[i].id@ == id && slots[i] == s && forall|
                        j: int,
                    | 0 <= j < i ==> #[trigger] slots[j].id@ != id;
                if i < k {
                    assert(slots[i].id@ != id);
                } else if k < i {
                    assert(slots[k].id@ != id);
                }
            },
            None => {
                assert(slots[k].id@ != id);
            },
        }
    }
}

proof fn ports_sound(b: Blueprint)
    ensures
        gather(b.ports@.len() as int, b.port_errors()).len() == 0 <==> forall|i: int|
            0 <= i < b.ports@.len() ==> b.slot_ids().contains((#[trigger] b.ports@[i]).slot@)
                && trimmed(b.ports@[i].schema@).len() > 0,
{
    let f = b.port_errors();
    gather_none(b.ports@.len() as int, f);
    if gather(b.ports@.len() as int, f).len() == 0 {
        assert forall|i: int| 0 <= i < b.ports@.len() implies b.slot_ids().contains(
            (#[trigger] b.ports@[i]).slot@,
        ) && trimmed(b.ports@[i].schema@).len() > 0 by {
            assert(f(i).len() == 0);
        }
    }
}

proof fn flows_sound(b: Blueprint)
    ensures
        gather(b.flows@.len() as int, b.flow_errors()).len() == 0 <==> forall|i: int|
            0 <= i < b.flows@.len() ==> port_directed(
                b,
                (#[trigger] b.flows@[i]).from@,
                Direction::Output,
            ) && port_directed(b, b.flows@[i].to@, Direction::Input),
{
    let f = b.flow_errors();
    let n = b.flows@.len() as int;
    gather_none(n, f);
    assert forall|i: int| 0 <= i < n implies ((#[trigger] f(i)).len() == 0 <==> port_directed(
        b,
        b.flows@[i].from@,
        Direction::Output,
    ) && port_directed(b, b.flows@[i].to@, Direction::Input)) by {
        port_stands_for(b, b.flows@[i].from@);
        port_stands_for(b, b.flows@[i].to@);
    }
    if gather(n, f).len() == 0 {
        assert forall|i: int| 0 <= i < n implies port_directed(
            b,
            (#[trigger] b.flows@[i]).from@,
            Direction::Output,
        ) && port_directed(b, b.flows@[i].to@, Direction::Input) by {
            assert(f(i).len() == 0);
        }
    }
}

proof fn implementation_sound(b: Blueprint, i: int)
    requires
        0 <= i < b.implementations@.len(),
    ensures
        (b.implementation_errors())(i).len() == 0 <==> sound_implementation(
            b,
            b.implementations@[i],
        ),
{
    let m = b.implementations@[i];
    let n = m.slots@.len() as int;
    let used = texts(m.slots@);
    unknown_are(
        used,
        b.slot_ids(),
        "implementation '"@ + m.id@ + "': slot '"@,
        "' does not exist"@,
        n,
    );
    assert((forall|k: int| 0 <= k < used.len() ==> b.slot_ids().contains(#[trigger] used[k])) <==> (
    forall|k: int| 0 <= k < n ==> b.slot_ids().contains((#[trigger] m.slots@[k])@))) by {
        if forall|k: int| 0 <= k < used.len() ==> b.slot_ids().contains(#[trigger] used[k]) {
            assert forall|k: int| 0 <= k < n implies b.slot_ids().contains(
                (#[trigger] m.slots@[k])@,
            ) by {
                assert(used[k] == m.slots@[k]@);
            }
        }
    }
    let g = b.fusion_errors(m);
    gather_none(n, g);
    let known = forall|k: int| 0 <= k < n ==> b.slot_ids().contains((#[trigger] m.slots@[k])@);
    if known {
        assert forall|k: int| 0 <= k < n implies ((#[trigger] g(k)).len() == 0 <==> fusible(
            b.slots@,
            m.slots@[k]@,
        )) by {
            fusible_is(b.slots@, m.slots@[k]@);
            first_is(b.slots@, m.slots@[k]@, 0);
            assert(b.slot_ids().contains(m.slots@[k]@));
            let j = choose|j: int|
                0 <= j < b.slot_ids().len() && b.slot_ids()[j] == m.slots@[k]@;
            assert(b.slots@[j].id@ == m.slots@[k]@);
        }
        if gather(n, g).len() == 0 {
            assert forall|k: int| 0 <= k < n implies fusible(b.slots@, (#[trigger] m.slots@[k])@) by {
                assert(g(k).len() == 0);
            }
        }
    }
    assert(b.differential(m) <==> exists|w: int|
        {
            &&& 0 <= w < b.witnesses@.len()
            &&& (#[trigger] b.witnesses@[w]).kind == WitnessKind::Differential
            &&& forall|k: int|
                0 <= k < m.slots@.len() ==> texts(b.witnesses@[w].covers@).contains(
                    (#[trigger] m.slots@[k])@,
                )
        }) by {
        if b.differential(m) {
            let w = choose|w: int|
                0 <= w < b.witnesses@.len() && (#[trigger] b.witnesses@[w]).kind
                    == WitnessKind::Differential && covers_all(b.witnesses@[w], m);
            assert(b.witnesses@[w].kind == WitnessKind::Differential);
        }
    }
}

proof fn adapter_sound(b: Blueprint, i: int)
    requires
        0 <= i < b.adapters@.len(),
    ensures
        (b.adapter_errors())(i).len() == 0 <==> sound_adapter(b, b.adapters@[i]),
{
    let a = b.adapters@[i];
    let used = texts(a.witnesses@);
    unknown_are(
        used,
        b.witness_ids(),
        "adapter '"@ + a.id@ + "': witness '"@,
        "' does not exist"@,
        a.witnesses@.len() as int,
    );
    if forall|k: int| 0 <= k < used.len() ==> b.witness_ids().contains(#[trigger] used[k]) {
        assert forall|k: int| 0 <= k < a.witnesses@.len() implies b.witness_ids().contains(
            (#[trigger] a.witnesses@[k])@,
        ) by {
            assert(used[k] == a.witnesses@[k]@);
        }
    }
    let src = b.adapter_sources();
    if src.contains(a.to@) {
        let k = choose|k: int| 0 <= k < src.len() && src[k] == a.to@;
        assert(b.adapters@[k].from@ == a.to@);
    } else {
        assert forall|k: int| 0 <= k < b.adapters@.len() implies (#[trigger] b.adapters@[k]).from@
            != a.to@ by {
            assert(src[k] == b.adapters@[k].from@);
        }
    }
}

proof fn witnesses_sound(b: Blueprint)
    ensures
        gather(b.witnesses@.len() as int, b.witness_errors()).len() == 0 <==> forall|i: int, k: int|
            0 <= i < b.witnesses@.len() && 0 <= k < b.witnesses@[i].covers@.len()
                ==> b.slot_ids().contains((#[trigger] b.witnesses@[i].covers@[k])@)
                || b.port_ids().contains(b.witnesses@[i].covers@[k]@),
{
    let f = b.witness_errors();
    let n = b.witnesses@.len() as int;
    gather_none(n, f);
    assert forall|i: int| 0 <= i < n implies ((#[trigger] f(i)).len() == 0 <==> forall|k: int|
        0 <= k < b.witnesses@[i].covers@.len() ==> b.slot_ids().contains(
            (#[trigger] b.witnesses@[i].covers@[k])@,
        ) || b.port_ids().contains(b.witnesses@[i].covers@[k]@)) by {
        let w = b.witnesses@[i];
        let used = texts(w.covers@);
        unknown_are(
            used,
            b.slot_ids() + b.port_ids(),
            "witness '"@ + w.id@ + "': target '"@,
            "' does not exist"@,
            w.covers@.len() as int,
        );
        assert forall|k: int| 0 <= k < used.len() implies ((b.slot_ids() + b.port_ids()).contains(
            #[trigger] used[k],
        ) <==> b.slot_ids().contains(w.covers@[k]@) || b.port_ids().contains(w.covers@[k]@)) by {
            crate::text::concat_contains(b.slot_ids(), b.port_ids(), used[k]);
        }
        if f(i).len() == 0 {
            assert forall|k: int| 0 <= k < w.covers@.len() implies b.slot_ids().contains(
                (#[trigger] b.witnesses@[i].covers@[k])@,
            ) || b.port_ids().contains(b.witnesses@[i].covers@[k]@) by {
                assert(used[k] == w.covers@[k]@);
            }
        }
    }
    if gather(n, f).len() == 0 {
        assert forall|i: int, k: int|
            0 <= i < b.witnesses@.len() && 0 <= k < b.witnesses@[i].covers@.len() implies b.slot_ids().contains(
            (#[trigger] b.witnesses@[i].covers@[k])@,
        ) || b.port_ids().contains(b.witnesses@[i].covers@[k]@) by {
            assert(f(i).len() == 0);
        }
    }
}

proof fn links_are_flows(b: Blueprint, x: Seq<char>, y: Seq<char>)
    ensures
        b.flow_links().contains((x, y)) <==> stateless_flow(b, x, y),
{
    let f = b.flow_link();
    let n = b.flows@.len() as int;
    gather_contains(n, f, (x, y));
    if b.flow_links().contains((x, y)) {
        let i = choose|i: int| 0 <= i < n && (#[trigger] f(i)).contains((x, y));
        let found = f(i);
        let j = choose|j: int| 0 <= j < found.len() && found[j] == (x, y);
        port_stands_for(b, b.flows@[i].from@);
        port_stands_for(b, b.flows@[i].to@);
        let p = b.port(b.flows@[i].from@)->0;
        let q = b.port(b.flows@[i].to@)->0;
        let k = choose|k: int| #[trigger]
            stands_for(b.ports@, k, b.flows@[i].from@) && b.ports@[k] == p;
        let m = choose|m: int| #[trigger]
            stands_for(b.ports@, m, b.flows@[i].to@) && b.ports@[m] == q;
        assert(stands_for(b.ports@, k, b.flows@[i].from@) && stands_for(
            b.ports@,
            m,
            b.flows@[i].to@,
        ));
    }
    if stateless_flow(b, x, y) {
        let (i, k, m) = choose|i: int, k: int, m: int|
            {
                &&& 0 <= i < b.flows@.len()
                &&& !b.flows@[i].stateful
                &&& #[trigger] stands_for(b.ports@, k, (#[trigger] b.flows@[i]).from@)
                &&& #[trigger] stands_for(b.ports@, m, b.flows@[i].to@)
                &&& b.ports@[k].slot@ == x
                &&& b.ports@[m].slot@ == y
            };
        port_stands_for(b, b.flows@[i].from@);
        port_stands_for(b, b.flows@[i].to@);
        assert(f(i)[0] == (x, y));
        assert(f(i).contains((x, y)));
    }
}

proof fn loops_are_around(b: Blueprint)
    ensures
        looped(b.flow_links()) <==> leads_around(b),
{
    let es = b.flow_links();
    if looped(es) {
        let p = choose|p: Seq<Seq<char>>| #[trigger] chain(es, p) && p.len() >= 2 && p[0] == p.last();
        assert forall|i: int| 0 <= i < p.len() - 1 implies stateless_flow(b, #[trigger] p[i], p[i + 1]) by {
            links_are_flows(b, p[i], p[i + 1]);
            assert(es.contains((p[i], p[i + 1])));
        }
        assert(around(b, p));
    }
    if leads_around(b) {
        let p = choose|p: Seq<Seq<char>>| #[trigger] around(b, p);
        assert forall|i: int| 0 <= i < p.len() - 1 implies es.contains((#[trigger] p[i], p[i + 1])) by {
            assert(stateless_flow(b, p[i], p[i + 1]));
            links_are_flows(b, p[i], p[i + 1]);
        }
        assert(chain(es, p));
    }
}

proof fn implementations_sound(b: Blueprint)
    ensures
        gather(b.implementations@.len() as int, b.implementation_errors()).len() == 0 <==> forall|
            i: int,
        |
            0 <= i < b.implementations@.len() ==> sound_implementation(
                b,
                #[trigger] b.implementations@[i],
            ),
{
    let f = b.implementation_errors();
    let n = b.implementations@.len() as int;
    gather_none(n, f);
    assert forall|i: int| 0 <= i < n implies ((#[trigger] f(i)).len() == 0 <==> sound_implementation(
        b,
        b.implementations@[i],
    )) by {
        implementation_sound(b, i);
    }
    if gather(n, f).len() == 0 {
        assert forall|i: int| 0 <= i < n implies sound_implementation(
            b,
            #[trigger] b.implementations@[i],
        ) by {
            assert(f(i).len() == 0);
        }
    }
}

proof fn adapters_sound(b: Blueprint)
    ensures
        gather(b.adapters@.len() as int, b.adapter_errors()).len() == 0 <==> forall|i: int|
            0 <= i < b.adapters@.len() ==> sound_adapter(b, #[trigger] b.adapters@[i]),
{
    let f = b.adapter_errors();
    let n = b.adapters@.len() as int;
    gather_none(n, f);
    assert forall|i: int| 0 <= i < n implies ((#[trigger] f(i)).len() == 0 <==> sound_adapter(
        b,
        b.adapters@[i],
    )) by {
        adapter_sound(b, i);
    }
    if gather(n, f).len() == 0 {
        assert forall|i: int| 0 <= i < n implies sound_adapter(b, #[trigger] b.adapters@[i]) by {
            assert(f(i).len() == 0);
        }
    }
}

/// Whether all the ids of a blueprint are in order.
#[verifier::opaque]
pub open spec fn identified(b: Blueprint) -> bool {
    &&& trimmed(b.meta.id@).len() > 0
    &&& proper_ids(b.slot_ids())
    &&& proper_ids(b.port_ids())
    &&& proper_ids(b.implementation_ids())
    &&& proper_ids(b.adapter_ids())
    &&& proper_ids(b.witness_ids())
    &&& plain_ids(b.slot_ids())
    &&& plain_ids(b.port_ids())
}

proof fn identities_sound(b: Blueprint)
    ensures
        b.identity_errors().len() == 0 <==> identified(b),
{
    reveal(identified);
    ids_are_proper("slot"@, b.slot_ids());
    ids_are_proper("port"@, b.port_ids());
    ids_are_proper("implementation"@, b.implementation_ids());
    ids_are_proper("adapter"@, b.adapter_ids());
    ids_are_proper("witness"@, b.witness_ids());
    if proper_ids(b.slot_ids()) {
        ids_are_plain("slot"@, b.slot_ids());
    }
    if proper_ids(b.port_ids()) {
        ids_are_plain("port"@, b.port_ids());
    }
    let first = if trimmed(b.meta.id@).len() == 0 {
        seq!["blueprint id must not be empty"@]
    } else {
        seq![]
    };
    lengths_add(
        first,
        all_id_errors("slot"@, b.slot_ids()),
        all_id_errors("port"@, b.port_ids()),
        all_id_errors("implementation"@, b.implementation_ids()),
        all_id_errors("adapter"@, b.adapter_ids()),
        all_id_errors("witness"@, b.witness_ids()),
        all_unsafe_errors("slot"@, b.slot_ids()),
        all_unsafe_errors("port"@, b.port_ids()),
    );
}

proof fn lengths_add<T>(
    a: Seq<T>,
    b: Seq<T>,
    c: Seq<T>,
    d: Seq<T>,
    e: Seq<T>,
    f: Seq<T>,
    g: Seq<T>,
    h: Seq<T>,
)
    ensures
        (a + b + c + d + e + f + g + h).len() == a.len() + b.len() + c.len() + d.len() + e.len()
            + f.len() + g.len() + h.len(),
{
}

/// The ids of a blueprint are those of its slots, ports, implementations, adapters and witnesses, one
/// for each and in the same places.
pub proof fn ids_are_the_parts(b: Blueprint)
    ensures
        b.slot_ids().len() == b.slots@.len(),
        b.port_ids().len() == b.ports@.len(),
        b.implementation_ids().len() == b.implementations@.len(),
        b.adapter_ids().len() == b.adapters@.len(),
        b.witness_ids().len() == b.witnesses@.len(),
        forall|i: int| 0 <= i < b.slots@.len() ==> #[trigger] b.slot_ids()[i] == b.slots@[i].id@,
        forall|i: int| 0 <= i < b.ports@.len() ==> #[trigger] b.port_ids()[i] == b.ports@[i].id@,
        forall|i: int|
            0 <= i < b.implementations@.len() ==> #[trigger] b.implementation_ids()[i]
                == b.implementations@[i].id@,
        forall|i: int| 0 <= i < b.adapters@.len() ==> #[trigger] b.adapter_ids()[i] == b.adapters@[i].id@,
        forall|i: int|
            0 <= i < b.witnesses@.len() ==> #[trigger] b.witness_ids()[i] == b.witnesses@[i].id@,
{
}

/// Nothing is said against a blueprint if and only if it is valid.
pub proof fn unfaulted_exactly_where_valid(b: Blueprint)
    ensures
        b.errors().len() == 0 <==> valid(b),
{
    identities_sound(b);
    ports_sound(b);
    flows_sound(b);
    implementations_sound(b);
    adapters_sound(b);
    witnesses_sound(b);
    loops_are_around(b);
    lengths_add(
        b.identity_errors(),
        gather(b.ports@.len() as int, b.port_errors()),
        gather(b.flows@.len() as int, b.flow_errors()),
        gather(b.implementations@.len() as int, b.implementation_errors()),
        gather(b.adapters@.len() as int, b.adapter_errors()),
        gather(b.witnesses@.len() as int, b.witness_errors()),
        b.loop_errors(),
        seq![],
    );
    reveal(identified);
}

// ── taking over ────────────────────────────────────────────────────────────────────────

/// Whether a port can be served: an implementation fills its slot, or an adapter leads from it to a
/// port whose slot one fills.
pub open spec fn served(b: Blueprint, p: Port) -> bool {
    slot_filled(b, p.slot@) || exists|i: int, k: int|
        {
            &&& 0 <= i < b.adapters@.len()
            &&& (#[trigger] b.adapters@[i]).from@ == p.id@
            &&& #[trigger] stands_for(b.ports@, k, b.adapters@[i].to@)
            &&& slot_filled(b, b.ports@[k].slot@)
        }
}

/// Whether some implementation names a slot among those that it fills.
pub open spec fn slot_filled(b: Blueprint, slot: Seq<char>) -> bool {
    exists|i: int, k: int|
        0 <= i < b.implementations@.len() && 0 <= k < b.implementations@[i].slots@.len() && (
        #[trigger] b.implementations@[i].slots@[k])@ == slot
}

/// Whether a blueprint keeps a permanent port of another: with the same slot, direction, schema,
/// version and policy, and so that it can be served.
pub open spec fn keeps_port(b: Blueprint, p: Port) -> bool {
    exists|k: int|
        {
            let q = b.ports@[k];
            &&& #[trigger] stands_for(b.ports@, k, p.id@)
            &&& q.slot@ == p.slot@
            &&& q.direction == p.direction
            &&& q.schema@ == p.schema@
            &&& q.version@ == p.version@
            &&& q.compatibility == p.compatibility
            &&& served(b, q)
        }
}

proof fn filled_is(b: Blueprint, slot: Seq<char>)
    ensures
        b.filled(slot) <==> slot_filled(b, slot),
{
    if b.filled(slot) {
        let i = choose|i: int|
            0 <= i < b.implementations@.len() && texts(
                (#[trigger] b.implementations@[i]).slots@,
            ).contains(slot);
        let ts = texts(b.implementations@[i].slots@);
        let k = choose|k: int| 0 <= k < ts.len() && ts[k] == slot;
        assert(b.implementations@[i].slots@[k]@ == slot);
    }
    if slot_filled(b, slot) {
        let (i, k) = choose|i: int, k: int|
            0 <= i < b.implementations@.len() && 0 <= k < b.implementations@[i].slots@.len() && (
            #[trigger] b.implementations@[i].slots@[k])@ == slot;
        let ts = texts(b.implementations@[i].slots@);
        assert(ts[k] == slot);
        assert(ts.contains(slot));
    }
}

proof fn served_is(b: Blueprint, p: Port)
    ensures
        b.executable(p) <==> served(b, p),
{
    filled_is(b, p.slot@);
    if b.adapted(p.id@) {
        let i = choose|i: int|
            0 <= i < b.adapters@.len() && (#[trigger] b.adapters@[i]).from@ == p.id@ && match b.port(
                b.adapters@[i].to@,
            ) {
                Some(q) => b.filled(q.slot@),
                None => false,
            };
        port_stands_for(b, b.adapters@[i].to@);
        let q = b.port(b.adapters@[i].to@)->0;
        let k = choose|k: int| #[trigger]
            stands_for(b.ports@, k, b.adapters@[i].to@) && b.ports@[k] == q;
        filled_is(b, q.slot@);
        assert(b.adapters@[i].from@ == p.id@ && stands_for(b.ports@, k, b.adapters@[i].to@));
    }
    if served(b, p) && !slot_filled(b, p.slot@) {
        let (i, k) = choose|i: int, k: int|
            {
                &&& 0 <= i < b.adapters@.len()
                &&& (#[trigger] b.adapters@[i]).from@ == p.id@
                &&& #[trigger] stands_for(b.ports@, k, b.adapters@[i].to@)
                &&& slot_filled(b, b.ports@[k].slot@)
            };
        port_stands_for(b, b.adapters@[i].to@);
        filled_is(b, b.ports@[k].slot@);
        assert(b.adapters@[i].from@ == p.id@);
    }
}

/// Nothing is said against a blueprint that takes over from another if and only if it names it as
/// the one that it supersedes, and keeps every permanent port of it.
pub proof fn takes_over_exactly_where_kept(b: Blueprint, prior: Blueprint)
    ensures
        b.evolution_errors(prior).len() == 0 <==> text_opt(b.meta.supersedes) == Some(
            prior.meta.id@,
        ) && forall|i: int|
            0 <= i < prior.ports@.len() && (#[trigger] prior.ports@[i]).compatibility
                == CompatibilityPolicy::Permanent ==> keeps_port(b, prior.ports@[i]),
{
    let f = b.retention_errors(prior);
    let n = prior.ports@.len() as int;
    gather_none(n, f);
    assert forall|i: int| 0 <= i < n && prior.ports@[i].compatibility
        == CompatibilityPolicy::Permanent implies ((#[trigger] f(i)).len() == 0 <==> keeps_port(
        b,
        prior.ports@[i],
    )) by {
        let p = prior.ports@[i];
        port_stands_for(b, p.id@);
        match b.port(p.id@) {
            Some(q) => {
                served_is(b, q);
                let k = choose|k: int| #[trigger] stands_for(b.ports@, k, p.id@) && b.ports@[k] == q;
                if f(i).len() == 0 {
                    assert(stands_for(b.ports@, k, p.id@));
                    assert(keeps_port(b, p));
                }
                if keeps_port(b, p) {
                    assert(q.id@ == p.id@);
                    assert(f(i).len() == 0);
                }
            },
            None => {},
        }
    }
    if b.evolution_errors(prior).len() == 0 {
        assert forall|i: int| 0 <= i < n && (#[trigger] prior.ports@[i]).compatibility
            == CompatibilityPolicy::Permanent implies keeps_port(b, prior.ports@[i]) by {
            assert(f(i).len() == 0);
        }
    }
    if forall|i: int|
        0 <= i < n && (#[trigger] prior.ports@[i]).compatibility == CompatibilityPolicy::Permanent
            ==> keeps_port(b, prior.ports@[i]) {
        assert forall|i: int| 0 <= i < n implies (#[trigger] f(i)).len() == 0 by {
            if prior.ports@[i].compatibility == CompatibilityPolicy::Permanent {
                assert(keeps_port(b, prior.ports@[i]));
            }
        }
    }
}

} // verus!
