//! What a scaffold holds.
use vstd::prelude::*;

use crate::blueprint::{Blueprint, Direction, Port};
use crate::scaffold::{
    capitals, constant_text, constant_texts, field_text, field_texts, fields, port_directed,
    port_of_slot, ports_directed, ports_of_slot, snake, ScaffoldLanguage,
};
use crate::text::{at, gather, occurs};

verus! {

proof fn slot_ports_upto(b: Blueprint, slot: Seq<char>, n: int)
    requires
        0 <= n <= b.ports@.len(),
    ensures
        gather(n, port_of_slot(b, slot)) == b.ports@.take(n).filter(|p: Port| p.slot@ == slot),
    decreases n,
{
    reveal(Seq::filter);
    let t = b.ports@.take(n);
    if n > 0 {
        slot_ports_upto(b, slot, n - 1);
        assert(t.drop_last() =~= b.ports@.take(n - 1));
        assert(t.last() == b.ports@[n - 1]);
        let prior = gather(n - 1, port_of_slot(b, slot));
        let here = (port_of_slot(b, slot))(n - 1);
        assert(gather(n, port_of_slot(b, slot)) == prior + here);
        if b.ports@[n - 1].slot@ == slot {
            assert(prior + here =~= prior.push(b.ports@[n - 1]));
        } else {
            assert(prior + here =~= prior);
        }
    } else {
        assert(t =~= Seq::empty());
    }
}

proof fn directed_upto(ports: Seq<Port>, d: Direction, n: int)
    requires
        0 <= n <= ports.len(),
    ensures
        gather(n, port_directed(ports, d)) == ports.take(n).filter(|p: Port| p.direction == d),
    decreases n,
{
    reveal(Seq::filter);
    let t = ports.take(n);
    if n > 0 {
        directed_upto(ports, d, n - 1);
        assert(t.drop_last() =~= ports.take(n - 1));
        assert(t.last() == ports[n - 1]);
        let prior = gather(n - 1, port_directed(ports, d));
        let here = (port_directed(ports, d))(n - 1);
        assert(gather(n, port_directed(ports, d)) == prior + here);
        if ports[n - 1].direction == d {
            assert(prior + here =~= prior.push(ports[n - 1]));
        } else {
            assert(prior + here =~= prior);
        }
    } else {
        assert(t =~= Seq::empty());
    }
}

/// The ports of a slot are those that name it, in their order; and those with a direction are those of
/// them that have it, in their order.
pub proof fn ports_are_told_apart(b: Blueprint, slot: Seq<char>, ports: Seq<Port>, d: Direction)
    ensures
        ports_of_slot(b, slot) == b.ports@.filter(|p: Port| p.slot@ == slot),
        ports_directed(ports, d) == ports.filter(|p: Port| p.direction == d),
{
    slot_ports_upto(b, slot, b.ports@.len() as int);
    assert(b.ports@.take(b.ports@.len() as int) =~= b.ports@);
    directed_upto(ports, d, ports.len() as int);
    assert(ports.take(ports.len() as int) =~= ports);
}

proof fn there_too(a: Seq<char>, b: Seq<char>, p: Seq<char>)
    ensures
        occurs(a, p) ==> occurs(a + b, p),
        occurs(b, p) ==> occurs(a + b, p),
{
    let s = a + b;
    if occurs(a, p) {
        let i = choose|i: int| at(a, p, i);
        assert(s.subrange(i, i + p.len()) =~= a.subrange(i, i + p.len()));
        assert(at(s, p, i));
    }
    if occurs(b, p) {
        let i = choose|i: int| at(b, p, i);
        let k = a.len() + i;
        assert(s.subrange(k, k + p.len()) =~= b.subrange(i, i + p.len()));
        assert(at(s, p, k));
    }
}

proof fn gathered_is_there(n: int, f: spec_fn(int) -> Seq<char>, i: int)
    requires
        0 <= i < n,
    ensures
        occurs(gather(n, f), f(i)),
    decreases n,
{
    there_too(gather(n - 1, f), f(n - 1), f(i));
    if i < n - 1 {
        gathered_is_there(n - 1, f, i);
    } else {
        let s = f(i);
        assert(s.subrange(0, s.len() as int) =~= s);
        assert(at(s, s, 0));
    }
}

/// An envelope holds a field for each of its ports, and the constants hold the schema of each.
pub proof fn every_port_has_its_field(
    language: ScaffoldLanguage,
    slot: Seq<char>,
    ports: Seq<Port>,
    i: int,
)
    requires
        0 <= i < ports.len(),
    ensures
        occurs(fields(language, ports), field_text(language, ports[i])),
        occurs(
            gather(ports.len() as int, constant_texts(language, slot, ports)),
            constant_text(language, slot, ports[i]),
        ),
{
    gathered_is_there(ports.len() as int, field_texts(language, ports), i);
    gathered_is_there(ports.len() as int, constant_texts(language, slot, ports), i);
}

/// An id in snake case has small letters for its letters, its digits, and underscores for everything
/// else; in capitals it has capital letters for its small ones.
pub proof fn ids_become_names(id: Seq<char>, i: int)
    requires
        0 <= i < id.len(),
    ensures
        snake(id).len() == id.len(),
        'a' <= id[i] <= 'z' || '0' <= id[i] <= '9' ==> snake(id)[i] == id[i],
        'A' <= id[i] <= 'Z' ==> snake(id)[i] as u32 == id[i] as u32 + 32,
        !('a' <= id[i] <= 'z' || 'A' <= id[i] <= 'Z' || '0' <= id[i] <= '9') ==> snake(id)[i] == '_',
        capitals(id).len() == id.len(),
        'a' <= id[i] <= 'z' ==> capitals(id)[i] as u32 == id[i] as u32 - 32,
        !('a' <= id[i] <= 'z') ==> capitals(id)[i] == id[i],
{
}

} // verus!
