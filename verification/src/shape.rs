//! The identity of a shape: its canonical form, the digest of that form, the comparison of two
//! blueprints, and the lock that holds a blueprint to its shape.
use vstd::prelude::*;

use crate::apart::{
    bool_apart, list_apart, regroup, rest_from, string_apart, strings_apart, strip_same, strung,
    strung_from_front,
};
use crate::blueprint::{
    Blueprint, CompatibilityAdapter, CompatibilityPolicy, Direction, Flow, Implementation,
    Lifecycle, Port, Slot, Witness, WitnessKind, WitnessResult,
};
use crate::digest::{digest, digest_of};
use crate::json::{
    json_bool, json_list, json_string, json_strings, list, list_of_strings, quote, truth,
};
use crate::order::{
    arrange, arranged, arranged_mapped, name_key, name_rank, sort_dedup,
    sort_texts, sorted_set, Keyed, Ranked,
};
use crate::text::{
    cat2, cat3, cat4, cat5, cat7, concat_contains, copy_all, dec, decimal, gather, join, joined,
    put, same, same_list, same_opt, text_opt, texts,
};

verus! {

// ── the canonical form ─────────────────────────────────────────────────────────────────

/// What a slot contributes to the shape.
#[verifier::ext_equal]
pub struct SlotView {
    pub id: Seq<char>,
    pub invariants: Seq<Seq<char>>,
    pub allow_fusion: bool,
}

impl Ranked for SlotView {
    open spec fn rank(&self) -> Seq<i64> {
        name_rank(false, self.id)
    }
}

impl Ranked for Port {
    open spec fn rank(&self) -> Seq<i64> {
        name_rank(false, self.id@)
    }
}

impl Keyed for Port {
    fn key(&self) -> (r: Vec<i64>) {
        name_key(false, self.id.as_str())
    }
}

/// The rank of a pair of names: by the first, then by the second.
pub open spec fn pair_rank(a: Seq<char>, b: Seq<char>) -> Seq<i64> {
    name_rank(false, a).push((-1) as i64) + name_rank(false, b)
}

impl Ranked for Flow {
    open spec fn rank(&self) -> Seq<i64> {
        pair_rank(self.from@, self.to@)
    }
}

impl Keyed for Flow {
    fn key(&self) -> (r: Vec<i64>) {
        let mut k = name_key(false, self.from.as_str());
        k.push(-1);
        let mut b = name_key(false, self.to.as_str());
        k.append(&mut b);
        k
    }
}

/// What a slot contributes to the shape, with its invariants in order.
pub struct SlotShape {
    pub id: String,
    pub invariants: Vec<String>,
    pub allow_fusion: bool,
}

impl View for SlotShape {
    type V = SlotView;

    open spec fn view(&self) -> SlotView {
        SlotView {
            id: self.id@,
            invariants: texts(self.invariants@),
            allow_fusion: self.allow_fusion,
        }
    }
}

impl Ranked for SlotShape {
    open spec fn rank(&self) -> Seq<i64> {
        name_rank(false, self.id@)
    }
}

impl Keyed for SlotShape {
    fn key(&self) -> (r: Vec<i64>) {
        name_key(false, self.id.as_str())
    }
}

/// What a slot contributes to the shape: neither its responsibility nor the order of its
/// invariants.
pub open spec fn slot_view(s: Slot) -> SlotView {
    SlotView {
        id: s.id@,
        invariants: arranged(texts(s.invariants@)),
        allow_fusion: s.allow_fusion,
    }
}

/// A direction as it is written.
pub open spec fn direction_name(d: Direction) -> Seq<char> {
    match d {
        Direction::Input => "input"@,
        Direction::Output => "output"@,
    }
}

/// A compatibility policy as it is written.
pub open spec fn policy_name(p: CompatibilityPolicy) -> Seq<char> {
    match p {
        CompatibilityPolicy::Internal => "internal"@,
        CompatibilityPolicy::Versioned => "versioned"@,
        CompatibilityPolicy::Permanent => "permanent"@,
    }
}

/// A slot of the shape in JSON.
pub open spec fn slot_json(s: SlotView) -> Seq<char> {
    "["@ + json_string(s.id) + ","@ + json_strings(s.invariants) + ","@ + json_bool(s.allow_fusion)
        + "]"@
}

/// What a port contributes to the shape.
#[verifier::ext_equal]
pub struct PortView {
    pub id: Seq<char>,
    pub slot: Seq<char>,
    pub direction: Direction,
    pub schema: Seq<char>,
    pub version: Seq<char>,
    pub compatibility: CompatibilityPolicy,
}

impl Ranked for PortView {
    open spec fn rank(&self) -> Seq<i64> {
        name_rank(false, self.id)
    }
}

/// What a port contributes to the shape.
pub open spec fn port_view(p: Port) -> PortView {
    PortView {
        id: p.id@,
        slot: p.slot@,
        direction: p.direction,
        schema: p.schema@,
        version: p.version@,
        compatibility: p.compatibility,
    }
}

/// What a port contributes to the shape, in JSON.
pub open spec fn port_text(p: PortView) -> Seq<char> {
    "{\"id\":"@ + json_string(p.id) + ",\"slot\":"@ + json_string(p.slot) + ",\"direction\":"@
        + json_string(direction_name(p.direction)) + ",\"schema\":"@ + json_string(p.schema)
        + ",\"version\":"@ + json_string(p.version) + ",\"compatibility\":"@ + json_string(
        policy_name(p.compatibility),
    ) + "}"@
}

/// A port in JSON.
pub open spec fn port_json(p: Port) -> Seq<char> {
    port_text(port_view(p))
}

/// What a flow contributes to the shape.
#[verifier::ext_equal]
pub struct FlowView {
    pub from: Seq<char>,
    pub to: Seq<char>,
    pub stateful: bool,
    pub optional: bool,
}

impl Ranked for FlowView {
    open spec fn rank(&self) -> Seq<i64> {
        pair_rank(self.from, self.to)
    }
}

/// What a flow contributes to the shape.
pub open spec fn flow_view(f: Flow) -> FlowView {
    FlowView { from: f.from@, to: f.to@, stateful: f.stateful, optional: f.optional }
}

/// What a flow contributes to the shape, in JSON.
pub open spec fn flow_text(f: FlowView) -> Seq<char> {
    "{\"from\":"@ + json_string(f.from) + ",\"to\":"@ + json_string(f.to) + ",\"stateful\":"@
        + json_bool(f.stateful) + ",\"optional\":"@ + json_bool(f.optional) + "}"@
}

/// A flow in JSON.
pub open spec fn flow_json(f: Flow) -> Seq<char> {
    flow_text(flow_view(f))
}

impl Blueprint {
    /// The slots of the shape, by id.
    pub open spec fn shape_slots(self) -> Seq<SlotView> {
        arranged(self.slots@.map_values(|s: Slot| slot_view(s)))
    }

    /// The ports of the shape, by id.
    pub open spec fn shape_ports(self) -> Seq<Port> {
        arranged(self.ports@)
    }

    /// The flows of the shape, by their ends.
    pub open spec fn shape_flows(self) -> Seq<Flow> {
        arranged(self.flows@)
    }

    /// The canonical form of the shape.
    pub open spec fn shape_json(self) -> Seq<char> {
        "["@ + json_list(self.shape_slots().map_values(|s: SlotView| slot_json(s))) + ","@
            + json_list(self.shape_ports().map_values(|p: Port| port_json(p))) + ","@ + json_list(
            self.shape_flows().map_values(|f: Flow| flow_json(f)),
        ) + "]"@
    }

    /// The identity of the shape: the digest of its canonical form.
    pub open spec fn shape(self) -> Seq<char> {
        digest(self.shape_json())
    }
}

impl Port {
    /// A copy.
    pub fn copy(&self) -> (r: Port)
        ensures
            r == *self,
    {
        Port {
            id: self.id.clone(),
            slot: self.slot.clone(),
            direction: self.direction,
            schema: self.schema.clone(),
            version: self.version.clone(),
            compatibility: self.compatibility,
        }
    }
}

impl Flow {
    /// A copy.
    pub fn copy(&self) -> (r: Flow)
        ensures
            r == *self,
    {
        Flow {
            from: self.from.clone(),
            to: self.to.clone(),
            stateful: self.stateful,
            optional: self.optional,
        }
    }
}

/// A direction as it is written.
pub fn direction_text(d: Direction) -> (r: String)
    ensures
        r@ == direction_name(d),
{
    match d {
        Direction::Input => "input".to_owned(),
        Direction::Output => "output".to_owned(),
    }
}

/// A compatibility policy as it is written.
pub fn policy_text(p: CompatibilityPolicy) -> (r: String)
    ensures
        r@ == policy_name(p),
{
    match p {
        CompatibilityPolicy::Internal => "internal".to_owned(),
        CompatibilityPolicy::Versioned => "versioned".to_owned(),
        CompatibilityPolicy::Permanent => "permanent".to_owned(),
    }
}

fn write_slot(s: &SlotShape) -> (r: String)
    ensures
        r@ == slot_json(s@),
{
    cat7(
        "[",
        quote(s.id.as_str()).as_str(),
        ",",
        list_of_strings(&s.invariants).as_str(),
        ",",
        truth(s.allow_fusion).as_str(),
        "]",
    )
}

/// Writes a port.
pub fn write_port(p: &Port) -> (r: String)
    ensures
        r@ == port_json(*p),
{
    let mut r = cat7(
        "{\"id\":",
        quote(p.id.as_str()).as_str(),
        ",\"slot\":",
        quote(p.slot.as_str()).as_str(),
        ",\"direction\":",
        quote(direction_text(p.direction).as_str()).as_str(),
        ",\"schema\":",
    );
    r.append(quote(p.schema.as_str()).as_str());
    r.append(",\"version\":");
    r.append(quote(p.version.as_str()).as_str());
    r.append(",\"compatibility\":");
    r.append(quote(policy_text(p.compatibility).as_str()).as_str());
    r.append("}");
    r
}

/// Writes a flow.
pub fn write_flow(f: &Flow) -> (r: String)
    ensures
        r@ == flow_json(*f),
{
    let mut r = cat7(
        "{\"from\":",
        quote(f.from.as_str()).as_str(),
        ",\"to\":",
        quote(f.to.as_str()).as_str(),
        ",\"stateful\":",
        truth(f.stateful).as_str(),
        ",\"optional\":",
    );
    r.append(truth(f.optional).as_str());
    r.append("}");
    r
}

impl Blueprint {
    fn write_slots(&self) -> (r: String)
        ensures
            r@ == json_list(self.shape_slots().map_values(|s: SlotView| slot_json(s))),
    {
        let ghost views = self.slots@.map_values(|s: Slot| slot_view(s));
        let mut shapes: Vec<SlotShape> = Vec::new();
        let mut i: usize = 0;
        while i < self.slots.len()
            invariant
                i <= self.slots.len(),
                views == self.slots@.map_values(|s: Slot| slot_view(s)),
                shapes.len() == i,
                forall|k: int| 0 <= k < i ==> (#[trigger] shapes@[k])@ == views[k],
            decreases self.slots.len() - i,
        {
            let s = &self.slots[i];
            let shape = SlotShape {
                id: s.id.clone(),
                invariants: sort_texts(copy_all(&s.invariants)),
                allow_fusion: s.allow_fusion,
            };
            assert(shape@ == views[i as int]);
            shapes.push(shape);
            i += 1;
        }
        let ghost f = |s: SlotShape| s@;
        proof {
            assert(shapes@.map_values(f) =~= views);
            arranged_mapped(shapes@, f);
        }
        let sorted = arrange(shapes);
        assert(sorted@.map_values(f) == self.shape_slots());
        let ghost goal = self.shape_slots().map_values(|s: SlotView| slot_json(s));
        let mut out: Vec<String> = Vec::new();
        let mut i: usize = 0;
        while i < sorted.len()
            invariant
                i <= sorted.len(),
                f == |s: SlotShape| s@,
                sorted@.map_values(f) == self.shape_slots(),
                goal == self.shape_slots().map_values(|s: SlotView| slot_json(s)),
                texts(out@) =~= goal.take(i as int),
            decreases sorted.len() - i,
        {
            assert(self.shape_slots()[i as int] == sorted@.map_values(f)[i as int]);
            put(&mut out, write_slot(&sorted[i]));
            assert(goal.take(i + 1) =~= goal.take(i as int).push(goal[i as int]));
            i += 1;
        }
        assert(sorted@.len() == self.shape_slots().len());
        assert(goal.take(goal.len() as int) =~= goal);
        list(&out)
    }

    fn write_ports(&self) -> (r: String)
        ensures
            r@ == json_list(self.shape_ports().map_values(|p: Port| port_json(p))),
    {
        let mut copies: Vec<Port> = Vec::new();
        let mut i: usize = 0;
        while i < self.ports.len()
            invariant
                i <= self.ports.len(),
                copies@ =~= self.ports@.take(i as int),
            decreases self.ports.len() - i,
        {
            copies.push(self.ports[i].copy());
            i += 1;
        }
        assert(self.ports@.take(self.ports@.len() as int) =~= self.ports@);
        let sorted = arrange(copies);
        let ghost goal = sorted@.map_values(|p: Port| port_json(p));
        let mut out: Vec<String> = Vec::new();
        let mut i: usize = 0;
        while i < sorted.len()
            invariant
                i <= sorted.len(),
                goal == sorted@.map_values(|p: Port| port_json(p)),
                texts(out@) =~= goal.take(i as int),
            decreases sorted.len() - i,
        {
            put(&mut out, write_port(&sorted[i]));
            assert(goal.take(i + 1) =~= goal.take(i as int).push(goal[i as int]));
            i += 1;
        }
        assert(goal.take(goal.len() as int) =~= goal);
        list(&out)
    }

    fn write_flows(&self) -> (r: String)
        ensures
            r@ == json_list(self.shape_flows().map_values(|f: Flow| flow_json(f))),
    {
        let mut copies: Vec<Flow> = Vec::new();
        let mut i: usize = 0;
        while i < self.flows.len()
            invariant
                i <= self.flows.len(),
                copies@ =~= self.flows@.take(i as int),
            decreases self.flows.len() - i,
        {
            copies.push(self.flows[i].copy());
            i += 1;
        }
        assert(self.flows@.take(self.flows@.len() as int) =~= self.flows@);
        let sorted = arrange(copies);
        let ghost goal = sorted@.map_values(|f: Flow| flow_json(f));
        let mut out: Vec<String> = Vec::new();
        let mut i: usize = 0;
        while i < sorted.len()
            invariant
                i <= sorted.len(),
                goal == sorted@.map_values(|f: Flow| flow_json(f)),
                texts(out@) =~= goal.take(i as int),
            decreases sorted.len() - i,
        {
            put(&mut out, write_flow(&sorted[i]));
            assert(goal.take(i + 1) =~= goal.take(i as int).push(goal[i as int]));
            i += 1;
        }
        assert(goal.take(goal.len() as int) =~= goal);
        list(&out)
    }

    /// The canonical form of the shape: slots, ports and flows in order, without what may change
    /// under one identity.
    pub fn canonical_shape(&self) -> (r: String)
        ensures
            r@ == self.shape_json(),
    {
        cat7(
            "[",
            self.write_slots().as_str(),
            ",",
            self.write_ports().as_str(),
            ",",
            self.write_flows().as_str(),
            "]",
        )
    }

    /// The identity of the shape. Implementations, adapters, witnesses, prose and lifecycle do
    /// not enter into it, so that a shape keeps its identity while what fills it evolves.
    pub fn shape_digest(&self) -> (r: String)
        ensures
            r@ == self.shape(),
    {
        digest_of(self.canonical_shape().as_str())
    }

    /// The identity of a shape depends on the ids, the invariants and the fusion of its slots,
    /// on its ports and on its flows, and on nothing else.
    pub proof fn shape_depends_only_on(self, other: Blueprint)
        requires
            slot_views(self.slots@) == slot_views(other.slots@),
            port_views(self.ports@) == port_views(other.ports@),
            flow_views(self.flows@) == flow_views(other.flows@),
        ensures
            self.shape_json() == other.shape_json(),
            self.shape() == other.shape(),
    {
        self.shape_of_views();
        other.shape_of_views();
    }

    /// The canonical form of a shape from what its slots, ports and flows contribute.
    pub(crate) proof fn shape_of_views(self)
        ensures
            self.shape_slots() == arranged(slot_views(self.slots@)),
            port_views(self.shape_ports()) == arranged(port_views(self.ports@)),
            flow_views(self.shape_flows()) == arranged(flow_views(self.flows@)),
            self.shape_json() == "["@ + json_list(
                arranged(slot_views(self.slots@)).map_values(|s: SlotView| slot_json(s)),
            ) + ","@ + json_list(
                arranged(port_views(self.ports@)).map_values(|p: PortView| port_text(p)),
            ) + ","@ + json_list(
                arranged(flow_views(self.flows@)).map_values(|f: FlowView| flow_text(f)),
            ) + "]"@,
    {
        assert(self.slots@.map_values(|s: Slot| slot_view(s)) =~= slot_views(self.slots@));
        arranged_mapped(self.ports@, |p: Port| port_view(p));
        arranged_mapped(self.flows@, |f: Flow| flow_view(f));
        assert(self.ports@.map_values(|p: Port| port_view(p)) =~= port_views(self.ports@));
        assert(self.flows@.map_values(|f: Flow| flow_view(f)) =~= flow_views(self.flows@));
        assert(self.shape_ports().map_values(|p: Port| port_view(p)) =~= port_views(
            self.shape_ports(),
        ));
        assert(self.shape_flows().map_values(|f: Flow| flow_view(f)) =~= flow_views(
            self.shape_flows(),
        ));
        assert(self.shape_ports().map_values(|p: Port| port_json(p)) =~= port_views(
            self.shape_ports(),
        ).map_values(|p: PortView| port_text(p)));
        assert(self.shape_flows().map_values(|f: Flow| flow_json(f)) =~= flow_views(
            self.shape_flows(),
        ).map_values(|f: FlowView| flow_text(f)));
    }
}

// ── telling shapes apart ───────────────────────────────────────────────────────────────

/// The pieces that make up the text.
spec fn slot_pieces(x: SlotView) -> Seq<Seq<char>> {
    seq![
        "["@,
        json_string(x.id),
        ","@,
        json_strings(x.invariants),
        ","@,
        json_bool(x.allow_fusion),
        "]"@,
    ]
}

proof fn slot_pieces_facts(x: SlotView, s: Seq<char>)
    ensures
        slot_json(x) + s == rest_from(slot_pieces(x), 0, s),
{
    reveal_with_fuel(strung, 8);
    let ps = slot_pieces(x);
    assert(slot_json(x) == strung(ps, 7));
    strung_from_front(ps, s);
}

proof fn slot_apart(a: SlotView, b: SlotView, s: Seq<char>, t: Seq<char>)
    requires
        slot_json(a) + s == slot_json(b) + t,
    ensures
        a == b,
        s == t,
{
    slot_pieces_facts(a, s);
    slot_pieces_facts(b, t);
    let p = slot_pieces(a);
    let q = slot_pieces(b);
    strip_same(p[0], rest_from(p, 1, s), rest_from(q, 1, t));
    string_apart(a.id, b.id, rest_from(p, 2, s), rest_from(q, 2, t));
    strip_same(p[2], rest_from(p, 3, s), rest_from(q, 3, t));
    strings_apart(a.invariants, b.invariants, rest_from(p, 4, s), rest_from(q, 4, t));
    strip_same(p[4], rest_from(p, 5, s), rest_from(q, 5, t));
    bool_apart(a.allow_fusion, b.allow_fusion, rest_from(p, 6, s), rest_from(q, 6, t));
    strip_same(p[6], rest_from(p, 7, s), rest_from(q, 7, t));
}

proof fn names_apart(a: PortView, b: PortView)
    ensures
        direction_name(a.direction) == direction_name(b.direction) ==> a.direction == b.direction,
        policy_name(a.compatibility) == policy_name(b.compatibility) ==> a.compatibility
            == b.compatibility,
{
    reveal_strlit("input");
    reveal_strlit("output");
    reveal_strlit("internal");
    reveal_strlit("versioned");
    reveal_strlit("permanent");
    assert("input"@[0] != "output"@[0]);
    assert("internal"@[0] != "versioned"@[0]);
    assert("internal"@[0] != "permanent"@[0]);
    assert("versioned"@[0] != "permanent"@[0]);
}

/// The pieces that make up the text.
spec fn port_pieces(x: PortView) -> Seq<Seq<char>> {
    seq![
        "{\"id\":"@,
        json_string(x.id),
        ",\"slot\":"@,
        json_string(x.slot),
        ",\"direction\":"@,
        json_string(direction_name(x.direction)),
        ",\"schema\":"@,
        json_string(x.schema),
        ",\"version\":"@,
        json_string(x.version),
        ",\"compatibility\":"@,
        json_string(policy_name(x.compatibility)),
        "}"@,
    ]
}

proof fn port_pieces_facts(x: PortView, s: Seq<char>)
    ensures
        port_text(x) + s == rest_from(port_pieces(x), 0, s),
{
    reveal_with_fuel(strung, 14);
    let ps = port_pieces(x);
    assert(port_text(x) == strung(ps, 13));
    strung_from_front(ps, s);
}

proof fn port_apart(a: PortView, b: PortView, s: Seq<char>, t: Seq<char>)
    requires
        port_text(a) + s == port_text(b) + t,
    ensures
        a == b,
        s == t,
{
    port_pieces_facts(a, s);
    port_pieces_facts(b, t);
    let p = port_pieces(a);
    let q = port_pieces(b);
    strip_same(p[0], rest_from(p, 1, s), rest_from(q, 1, t));
    string_apart(a.id, b.id, rest_from(p, 2, s), rest_from(q, 2, t));
    strip_same(p[2], rest_from(p, 3, s), rest_from(q, 3, t));
    string_apart(a.slot, b.slot, rest_from(p, 4, s), rest_from(q, 4, t));
    strip_same(p[4], rest_from(p, 5, s), rest_from(q, 5, t));
    string_apart(direction_name(a.direction), direction_name(b.direction), rest_from(p, 6, s), rest_from(q, 6, t));
    strip_same(p[6], rest_from(p, 7, s), rest_from(q, 7, t));
    string_apart(a.schema, b.schema, rest_from(p, 8, s), rest_from(q, 8, t));
    strip_same(p[8], rest_from(p, 9, s), rest_from(q, 9, t));
    string_apart(a.version, b.version, rest_from(p, 10, s), rest_from(q, 10, t));
    strip_same(p[10], rest_from(p, 11, s), rest_from(q, 11, t));
    string_apart(policy_name(a.compatibility), policy_name(b.compatibility), rest_from(p, 12, s), rest_from(q, 12, t));
    strip_same(p[12], rest_from(p, 13, s), rest_from(q, 13, t));
    names_apart(a, b);
}

/// The pieces that make up the text.
spec fn flow_pieces(x: FlowView) -> Seq<Seq<char>> {
    seq![
        "{\"from\":"@,
        json_string(x.from),
        ",\"to\":"@,
        json_string(x.to),
        ",\"stateful\":"@,
        json_bool(x.stateful),
        ",\"optional\":"@,
        json_bool(x.optional),
        "}"@,
    ]
}

proof fn flow_pieces_facts(x: FlowView, s: Seq<char>)
    ensures
        flow_text(x) + s == rest_from(flow_pieces(x), 0, s),
{
    reveal_with_fuel(strung, 10);
    let ps = flow_pieces(x);
    assert(flow_text(x) == strung(ps, 9));
    strung_from_front(ps, s);
}

proof fn flow_apart(a: FlowView, b: FlowView, s: Seq<char>, t: Seq<char>)
    requires
        flow_text(a) + s == flow_text(b) + t,
    ensures
        a == b,
        s == t,
{
    flow_pieces_facts(a, s);
    flow_pieces_facts(b, t);
    let p = flow_pieces(a);
    let q = flow_pieces(b);
    strip_same(p[0], rest_from(p, 1, s), rest_from(q, 1, t));
    string_apart(a.from, b.from, rest_from(p, 2, s), rest_from(q, 2, t));
    strip_same(p[2], rest_from(p, 3, s), rest_from(q, 3, t));
    string_apart(a.to, b.to, rest_from(p, 4, s), rest_from(q, 4, t));
    strip_same(p[4], rest_from(p, 5, s), rest_from(q, 5, t));
    bool_apart(a.stateful, b.stateful, rest_from(p, 6, s), rest_from(q, 6, t));
    strip_same(p[6], rest_from(p, 7, s), rest_from(q, 7, t));
    bool_apart(a.optional, b.optional, rest_from(p, 8, s), rest_from(q, 8, t));
    strip_same(p[8], rest_from(p, 9, s), rest_from(q, 9, t));
}

spec fn slot_code() -> spec_fn(SlotView) -> Seq<char> {
    |x: SlotView| slot_json(x)
}

spec fn port_code() -> spec_fn(PortView) -> Seq<char> {
    |x: PortView| port_text(x)
}

spec fn flow_code() -> spec_fn(FlowView) -> Seq<char> {
    |x: FlowView| flow_text(x)
}

/// What slots contribute to the shape.
pub open spec fn slot_views(v: Seq<Slot>) -> Seq<SlotView> {
    v.map_values(|s: Slot| slot_view(s))
}

/// What ports contribute to the shape.
pub open spec fn port_views(v: Seq<Port>) -> Seq<PortView> {
    v.map_values(|p: Port| port_view(p))
}

/// What flows contribute to the shape.
pub open spec fn flow_views(v: Seq<Flow>) -> Seq<FlowView> {
    v.map_values(|f: Flow| flow_view(f))
}

proof fn slots_apart(a: Seq<SlotView>, b: Seq<SlotView>, s: Seq<char>, t: Seq<char>)
    requires
        json_list(a.map_values(|x: SlotView| slot_json(x))) + s == json_list(
            b.map_values(|x: SlotView| slot_json(x)),
        ) + t,
    ensures
        a == b,
        s == t,
{
    let e = slot_code();
    assert(a.map_values(|x: SlotView| slot_json(x)) =~= a.map_values(e));
    assert(b.map_values(|x: SlotView| slot_json(x)) =~= b.map_values(e));
    assert forall|x: SlotView, y: SlotView, p: Seq<char>, q: Seq<char>|
        #![trigger e(x) + p, e(y) + q]
        e(x) + p == e(y) + q implies x == y && p == q by {
        slot_apart(x, y, p, q);
    }
    reveal_strlit("[");
    assert forall|x: SlotView| (#[trigger] e(x)).len() > 0 && e(x)[0] != ']' by {
        assert(slot_json(x)[0] == "["@[0]);
    }
    list_apart(e, a, b, s, t);
}

proof fn ports_apart(a: Seq<Port>, b: Seq<Port>, s: Seq<char>, t: Seq<char>)
    requires
        json_list(a.map_values(|x: Port| port_json(x))) + s == json_list(
            b.map_values(|x: Port| port_json(x)),
        ) + t,
    ensures
        port_views(a) == port_views(b),
        s == t,
{
    let e = port_code();
    assert(a.map_values(|x: Port| port_json(x)) =~= port_views(a).map_values(e));
    assert(b.map_values(|x: Port| port_json(x)) =~= port_views(b).map_values(e));
    assert forall|x: PortView, y: PortView, p: Seq<char>, q: Seq<char>|
        #![trigger e(x) + p, e(y) + q]
        e(x) + p == e(y) + q implies x == y && p == q by {
        port_apart(x, y, p, q);
    }
    reveal_strlit("{\"id\":");
    assert forall|x: PortView| (#[trigger] e(x)).len() > 0 && e(x)[0] != ']' by {
        assert(port_text(x)[0] == "{\"id\":"@[0]);
    }
    list_apart(e, port_views(a), port_views(b), s, t);
}

proof fn flows_apart(a: Seq<Flow>, b: Seq<Flow>, s: Seq<char>, t: Seq<char>)
    requires
        json_list(a.map_values(|x: Flow| flow_json(x))) + s == json_list(
            b.map_values(|x: Flow| flow_json(x)),
        ) + t,
    ensures
        flow_views(a) == flow_views(b),
        s == t,
{
    let e = flow_code();
    assert(a.map_values(|x: Flow| flow_json(x)) =~= flow_views(a).map_values(e));
    assert(b.map_values(|x: Flow| flow_json(x)) =~= flow_views(b).map_values(e));
    assert forall|x: FlowView, y: FlowView, p: Seq<char>, q: Seq<char>|
        #![trigger e(x) + p, e(y) + q]
        e(x) + p == e(y) + q implies x == y && p == q by {
        flow_apart(x, y, p, q);
    }
    reveal_strlit("{\"from\":");
    assert forall|x: FlowView| (#[trigger] e(x)).len() > 0 && e(x)[0] != ']' by {
        assert(flow_text(x)[0] == "{\"from\":"@[0]);
    }
    list_apart(e, flow_views(a), flow_views(b), s, t);
}

impl Blueprint {
    /// A change of the shape is never missed: blueprints with the same canonical form have the same
    /// slots with the same invariants and fusion policy, the same ports with the same contracts,
    /// and the same flows. So where any of these differs, the bytes whose digest is the identity of
    /// the shape differ too.
    pub proof fn shape_tells_apart(self, other: Blueprint)
        requires
            self.shape_json() == other.shape_json(),
        ensures
            self.shape_slots() == other.shape_slots(),
            port_views(self.shape_ports()) == port_views(other.shape_ports()),
            flow_views(self.shape_flows()) == flow_views(other.shape_flows()),
    {
        let s = Seq::<char>::empty();
        let a1 = json_list(self.shape_slots().map_values(|s: SlotView| slot_json(s)));
        let a2 = json_list(self.shape_ports().map_values(|p: Port| port_json(p)));
        let a3 = json_list(self.shape_flows().map_values(|f: Flow| flow_json(f)));
        let b1 = json_list(other.shape_slots().map_values(|s: SlotView| slot_json(s)));
        let b2 = json_list(other.shape_ports().map_values(|p: Port| port_json(p)));
        let b3 = json_list(other.shape_flows().map_values(|f: Flow| flow_json(f)));
        regroup_shape(a1, a2, a3);
        regroup_shape(b1, b2, b3);
        let ar = ","@ + (a2 + (","@ + (a3 + "]"@)));
        let br = ","@ + (b2 + (","@ + (b3 + "]"@)));
        strip_same("["@, a1 + ar, b1 + br);
        slots_apart(self.shape_slots(), other.shape_slots(), ar, br);
        strip_same(","@, a2 + (","@ + (a3 + "]"@)), b2 + (","@ + (b3 + "]"@)));
        ports_apart(self.shape_ports(), other.shape_ports(), ","@ + (a3 + "]"@), ","@ + (b3 + "]"@));
        strip_same(","@, a3 + "]"@, b3 + "]"@);
        flows_apart(self.shape_flows(), other.shape_flows(), "]"@, "]"@);
    }
}

proof fn regroup_shape(a: Seq<char>, b: Seq<char>, c: Seq<char>)
    ensures
        "["@ + a + ","@ + b + ","@ + c + "]"@ == "["@ + (a + (","@ + (b + (","@ + (c + "]"@))))),
{
    let x = "["@ + a;
    regroup(x + ","@ + b + ","@, c, "]"@);
    regroup(x + ","@ + b, ","@, c + "]"@);
    regroup(x + ","@, b, ","@ + (c + "]"@));
    regroup(x, ","@, b + (","@ + (c + "]"@)));
    regroup("["@, a, ","@ + (b + (","@ + (c + "]"@))));
}

// ── comparing blueprints ───────────────────────────────────────────────────────────────

/// What an implementation says.
#[verifier::ext_equal]
pub struct ImplementationView {
    pub id: Seq<char>,
    pub slots: Seq<Seq<char>>,
    pub bindings: Seq<Seq<char>>,
    pub variant_of: Option<Seq<char>>,
}

impl View for Implementation {
    type V = ImplementationView;

    open spec fn view(&self) -> ImplementationView {
        ImplementationView {
            id: self.id@,
            slots: texts(self.slots@),
            bindings: texts(self.bindings@),
            variant_of: text_opt(self.variant_of),
        }
    }
}

/// What an adapter says.
#[verifier::ext_equal]
pub struct AdapterView {
    pub id: Seq<char>,
    pub from: Seq<char>,
    pub to: Seq<char>,
    pub binding: Seq<char>,
    pub witnesses: Seq<Seq<char>>,
}

impl View for CompatibilityAdapter {
    type V = AdapterView;

    open spec fn view(&self) -> AdapterView {
        AdapterView {
            id: self.id@,
            from: self.from@,
            to: self.to@,
            binding: self.binding@,
            witnesses: texts(self.witnesses@),
        }
    }
}

/// What a witness says.
#[verifier::ext_equal]
pub struct WitnessView {
    pub id: Seq<char>,
    pub kind: WitnessKind,
    pub command: Seq<char>,
    pub covers: Seq<Seq<char>>,
}

impl View for Witness {
    type V = WitnessView;

    open spec fn view(&self) -> WitnessView {
        WitnessView {
            id: self.id@,
            kind: self.kind,
            command: self.command@,
            covers: texts(self.covers@),
        }
    }
}

impl Ranked for WitnessView {
    open spec fn rank(&self) -> Seq<i64> {
        name_rank(false, self.id)
    }
}

impl Ranked for Witness {
    open spec fn rank(&self) -> Seq<i64> {
        name_rank(false, self.id@)
    }
}

impl Keyed for Witness {
    fn key(&self) -> (r: Vec<i64>) {
        name_key(false, self.id.as_str())
    }
}

/// The views of a list of implementations.
pub open spec fn implementation_views(v: Seq<Implementation>) -> Seq<ImplementationView> {
    v.map_values(|m: Implementation| m@)
}

/// The views of a list of adapters.
pub open spec fn adapter_views(v: Seq<CompatibilityAdapter>) -> Seq<AdapterView> {
    v.map_values(|a: CompatibilityAdapter| a@)
}

/// The views of a list of witnesses.
pub open spec fn witness_views(v: Seq<Witness>) -> Seq<WitnessView> {
    v.map_values(|w: Witness| w@)
}

/// How a blueprint changed.
#[derive(Debug, Clone, Copy, PartialEq, Eq, Structural)]
pub enum ChangeClass {
    /// Neither the shape nor what fills it changed.
    NoChange,
    /// The shape is the same; implementations or adapters changed.
    ImplementationOnly,
    /// The shape changed.
    NewShapeRequired,
}

/// The comparison of two blueprints.
#[derive(Debug, Clone, PartialEq, Eq)]
pub struct ShapeDiff {
    pub class: ChangeClass,
    pub old_digest: String,
    pub new_digest: String,
}

/// How one blueprint differs from another.
pub open spec fn change_class(prior: Blueprint, new: Blueprint) -> ChangeClass {
    if prior.shape() != new.shape() {
        ChangeClass::NewShapeRequired
    } else if implementation_views(prior.implementations@) != implementation_views(
        new.implementations@,
    ) || adapter_views(prior.adapters@) != adapter_views(new.adapters@) {
        ChangeClass::ImplementationOnly
    } else {
        ChangeClass::NoChange
    }
}

fn same_implementation(a: &Implementation, b: &Implementation) -> (r: bool)
    ensures
        r == (a@ == b@),
{
    same(a.id.as_str(), b.id.as_str()) && same_list(&a.slots, &b.slots) && same_list(
        &a.bindings,
        &b.bindings,
    ) && same_opt(&a.variant_of, &b.variant_of)
}

fn same_adapter(a: &CompatibilityAdapter, b: &CompatibilityAdapter) -> (r: bool)
    ensures
        r == (a@ == b@),
{
    same(a.id.as_str(), b.id.as_str()) && same(a.from.as_str(), b.from.as_str()) && same(
        a.to.as_str(),
        b.to.as_str(),
    ) && same(a.binding.as_str(), b.binding.as_str()) && same_list(&a.witnesses, &b.witnesses)
}

fn same_witness(a: &Witness, b: &Witness) -> (r: bool)
    ensures
        r == (a@ == b@),
{
    same(a.id.as_str(), b.id.as_str()) && a.kind == b.kind && same(
        a.command.as_str(),
        b.command.as_str(),
    ) && same_list(&a.covers, &b.covers)
}

fn same_implementations(a: &Vec<Implementation>, b: &Vec<Implementation>) -> (r: bool)
    ensures
        r == (implementation_views(a@) == implementation_views(b@)),
{
    let ghost x = implementation_views(a@);
    let ghost y = implementation_views(b@);
    if a.len() != b.len() {
        assert(x.len() != y.len());
        return false;
    }
    let mut i: usize = 0;
    while i < a.len()
        invariant
            i <= a.len() == b.len(),
            x == implementation_views(a@),
            y == implementation_views(b@),
            forall|j: int| 0 <= j < i ==> x[j] == y[j],
        decreases a.len() - i,
    {
        if !same_implementation(&a[i], &b[i]) {
            assert(x[i as int] != y[i as int]);
            return false;
        }
        i += 1;
    }
    assert(x =~= y);
    true
}

fn same_adapters(a: &Vec<CompatibilityAdapter>, b: &Vec<CompatibilityAdapter>) -> (r: bool)
    ensures
        r == (adapter_views(a@) == adapter_views(b@)),
{
    let ghost x = adapter_views(a@);
    let ghost y = adapter_views(b@);
    if a.len() != b.len() {
        assert(x.len() != y.len());
        return false;
    }
    let mut i: usize = 0;
    while i < a.len()
        invariant
            i <= a.len() == b.len(),
            x == adapter_views(a@),
            y == adapter_views(b@),
            forall|j: int| 0 <= j < i ==> x[j] == y[j],
        decreases a.len() - i,
    {
        if !same_adapter(&a[i], &b[i]) {
            assert(x[i as int] != y[i as int]);
            return false;
        }
        i += 1;
    }
    assert(x =~= y);
    true
}

fn same_witnesses(a: &Vec<Witness>, b: &Vec<Witness>) -> (r: bool)
    ensures
        r == (witness_views(a@) == witness_views(b@)),
{
    let ghost x = witness_views(a@);
    let ghost y = witness_views(b@);
    if a.len() != b.len() {
        assert(x.len() != y.len());
        return false;
    }
    let mut i: usize = 0;
    while i < a.len()
        invariant
            i <= a.len() == b.len(),
            x == witness_views(a@),
            y == witness_views(b@),
            forall|j: int| 0 <= j < i ==> x[j] == y[j],
        decreases a.len() - i,
    {
        if !same_witness(&a[i], &b[i]) {
            assert(x[i as int] != y[i as int]);
            return false;
        }
        i += 1;
    }
    assert(x =~= y);
    true
}

impl ShapeDiff {
    /// Compares two blueprints: by their shapes, then by what fills them.
    pub fn between(prior: &Blueprint, new: &Blueprint) -> (r: ShapeDiff)
        ensures
            r.class == change_class(*prior, *new),
            r.old_digest@ == prior.shape(),
            r.new_digest@ == new.shape(),
    {
        let old_digest = prior.shape_digest();
        let new_digest = new.shape_digest();
        let class = if !same(old_digest.as_str(), new_digest.as_str()) {
            ChangeClass::NewShapeRequired
        } else if !same_implementations(&prior.implementations, &new.implementations)
            || !same_adapters(&prior.adapters, &new.adapters) {
            ChangeClass::ImplementationOnly
        } else {
            ChangeClass::NoChange
        };
        ShapeDiff { class, old_digest, new_digest }
    }
}

// ── locks ──────────────────────────────────────────────────────────────────────────────

/// What a locked blueprint is held to.
#[derive(Debug, Clone, PartialEq, Eq)]
pub struct BlueprintLock {
    pub schema_version: u32,
    pub blueprint_id: String,
    pub shape_digest: String,
    pub permanent_ports: Vec<String>,
    pub witnesses: Vec<Witness>,
}

/// Why a blueprint cannot be locked.
#[derive(Debug, Clone, PartialEq, Eq)]
pub enum LockError {
    /// The blueprint does not validate.
    Invalid(Vec<String>),
    /// The lifecycle is not locked.
    NotLocked,
    /// There is no result for this witness.
    NotRun(String),
    /// This witness failed, with this detail.
    Failed(String, String),
}

/// Why a blueprint cannot be locked.
pub enum Refusal {
    Invalid(Seq<Seq<char>>),
    NotLocked,
    NotRun(Seq<char>),
    Failed(Seq<char>, Seq<char>),
}

impl View for LockError {
    type V = Refusal;

    open spec fn view(&self) -> Refusal {
        match *self {
            LockError::Invalid(e) => Refusal::Invalid(texts(e@)),
            LockError::NotLocked => Refusal::NotLocked,
            LockError::NotRun(id) => Refusal::NotRun(id@),
            LockError::Failed(id, detail) => Refusal::Failed(id@, detail@),
        }
    }
}

impl LockError {
    /// The refusal in words.
    pub fn message(&self) -> (r: String)
        ensures
            r@ == match *self {
                LockError::Invalid(e) => "invalid blueprint: "@ + joined(texts(e@), "; "@),
                LockError::NotLocked =>
                    "blueprint lifecycle must be locked before creating a lock"@,
                LockError::NotRun(id) => "witness '"@ + id@ + "' was not run"@,
                LockError::Failed(id, detail) => "witness '"@ + id@ + "' failed: "@ + detail@,
            },
    {
        match self {
            LockError::Invalid(e) => cat2("invalid blueprint: ", join(e, "; ").as_str()),
            LockError::NotLocked =>
                "blueprint lifecycle must be locked before creating a lock".to_owned(),
            LockError::NotRun(id) => cat3("witness '", id.as_str(), "' was not run"),
            LockError::Failed(id, detail) => cat4(
                "witness '",
                id.as_str(),
                "' failed: ",
                detail.as_str(),
            ),
        }
    }
}

/// The last of the first `n` results with an id.
pub open spec fn last_result(results: Seq<WitnessResult>, id: Seq<char>, n: int) -> Option<
    WitnessResult,
>
    decreases n,
{
    if n <= 0 {
        None
    } else if results[n - 1].id@ == id {
        Some(results[n - 1])
    } else {
        last_result(results, id, n - 1)
    }
}

/// Why a witness does not stand.
pub open spec fn witness_refusal(w: Witness, results: Seq<WitnessResult>) -> Option<Refusal> {
    match last_result(results, w.id@, results.len() as int) {
        None => Some(Refusal::NotRun(w.id@)),
        Some(r) => if r.passed {
            None
        } else {
            Some(Refusal::Failed(w.id@, r.detail@))
        },
    }
}

/// Why the first of the witnesses from `i` on that does not stand does not.
pub open spec fn witnesses_refusal(ws: Seq<Witness>, results: Seq<WitnessResult>, i: int) -> Option<
    Refusal,
>
    decreases ws.len() - i,
{
    if i >= ws.len() {
        None
    } else {
        match witness_refusal(ws[i], results) {
            Some(r) => Some(r),
            None => witnesses_refusal(ws, results, i + 1),
        }
    }
}

impl Blueprint {
    /// The id of a port, where it is permanent.
    pub open spec fn permanent_port(self) -> spec_fn(int) -> Seq<Seq<char>> {
        |i: int|
            if self.ports@[i].compatibility == CompatibilityPolicy::Permanent {
                seq![self.ports@[i].id@]
            } else {
                seq![]
            }
    }

    /// The ids of the permanent ports, in order.
    pub open spec fn permanent(self) -> Seq<Seq<char>> {
        arranged(gather(self.ports@.len() as int, self.permanent_port()))
    }

    /// The witnesses, by id.
    pub open spec fn sorted_witnesses(self) -> Seq<WitnessView> {
        arranged(witness_views(self.witnesses@))
    }

    /// Whether `r` is why the blueprint cannot be locked with these witness results.
    pub open spec fn refused(self, results: Seq<WitnessResult>, r: Refusal) -> bool {
        if self.errors().len() > 0 {
            r is Invalid && sorted_set(r->Invalid_0, self.errors())
        } else if self.meta.lifecycle != Lifecycle::Locked {
            r is NotLocked
        } else {
            witnesses_refusal(self.witnesses@, results, 0) == Some(r)
        }
    }

    /// Whether the blueprint can be locked with these witness results.
    pub open spec fn lockable(self, results: Seq<WitnessResult>) -> bool {
        &&& self.errors().len() == 0
        &&& self.meta.lifecycle == Lifecycle::Locked
        &&& witnesses_refusal(self.witnesses@, results, 0) is None
    }

    fn list_permanent(&self) -> (r: Vec<String>)
        ensures
            texts(r@) == self.permanent(),
    {
        let mut out: Vec<String> = Vec::new();
        let mut i: usize = 0;
        while i < self.ports.len()
            invariant
                i <= self.ports.len(),
                texts(out@) =~= gather(i as int, self.permanent_port()),
            decreases self.ports.len() - i,
        {
            if self.ports[i].compatibility == CompatibilityPolicy::Permanent {
                put(&mut out, self.ports[i].id.clone());
            }
            i += 1;
        }
        sort_texts(out)
    }

    fn list_sorted_witnesses(&self) -> (r: Vec<Witness>)
        ensures
            witness_views(r@) == self.sorted_witnesses(),
    {
        let mut out: Vec<Witness> = Vec::new();
        let mut i: usize = 0;
        while i < self.witnesses.len()
            invariant
                i <= self.witnesses.len(),
                out.len() == i,
                forall|k: int| 0 <= k < i ==> (#[trigger] out@[k])@ == self.witnesses@[k]@,
            decreases self.witnesses.len() - i,
        {
            let w = &self.witnesses[i];
            out.push(
                Witness {
                    id: w.id.clone(),
                    kind: w.kind,
                    command: w.command.clone(),
                    covers: copy_all(&w.covers),
                },
            );
            i += 1;
        }
        proof {
            assert(witness_views(out@) =~= witness_views(self.witnesses@));
            arranged_mapped(out@, |w: Witness| w@);
        }
        arrange(out)
    }
}

/// The result for a witness: the last one with its id.
fn find_result<'a>(results: &'a Vec<WitnessResult>, id: &str) -> (r: Option<&'a WitnessResult>)
    ensures
        match r {
            Some(x) => last_result(results@, id@, results@.len() as int) == Some(*x),
            None => last_result(results@, id@, results@.len() as int) is None,
        },
{
    let mut n: usize = results.len();
    while n > 0
        invariant
            n <= results.len(),
            last_result(results@, id@, results@.len() as int) == last_result(
                results@,
                id@,
                n as int,
            ),
        decreases n,
    {
        if same(results[n - 1].id.as_str(), id) {
            return Some(&results[n - 1]);
        }
        n -= 1;
    }
    None
}

/// Why the first witness that does not stand does not.
fn first_refusal(ws: &Vec<Witness>, results: &Vec<WitnessResult>) -> (r: Option<LockError>)
    ensures
        match r {
            Some(e) => witnesses_refusal(ws@, results@, 0) == Some(e@),
            None => witnesses_refusal(ws@, results@, 0) is None,
        },
{
    let mut i: usize = 0;
    while i < ws.len()
        invariant
            i <= ws.len(),
            witnesses_refusal(ws@, results@, 0) == witnesses_refusal(ws@, results@, i as int),
        decreases ws.len() - i,
    {
        let w = &ws[i];
        match find_result(results, w.id.as_str()) {
            None => {
                return Some(LockError::NotRun(w.id.clone()));
            },
            Some(x) => {
                if !x.passed {
                    return Some(LockError::Failed(w.id.clone(), x.detail.clone()));
                }
            },
        }
        i += 1;
    }
    None
}

impl BlueprintLock {
    /// Whether the lock holds a blueprint to its present state.
    pub open spec fn pins(self, b: Blueprint) -> bool {
        &&& self.schema_version == 2
        &&& self.blueprint_id@ == b.meta.id@
        &&& self.shape_digest@ == b.shape()
        &&& texts(self.permanent_ports@) == b.permanent()
        &&& witness_views(self.witnesses@) == b.sorted_witnesses()
    }

    /// How a blueprint departs from the lock.
    pub open spec fn departures(self, b: Blueprint) -> Seq<Seq<char>> {
        (if self.schema_version != 2 {
            seq![
                "unsupported blueprint lock schema "@ + dec(self.schema_version as nat)
                    + "; recreate the lock with this Bonsai version"@,
            ]
        } else {
            seq![]
        }) + (if self.blueprint_id@ != b.meta.id@ {
            seq!["lock belongs to '"@ + self.blueprint_id@ + "' not '"@ + b.meta.id@ + "'"@]
        } else {
            seq![]
        }) + (if self.shape_digest@ != b.shape() {
            seq![
                "locked shape changed: "@ + self.shape_digest@ + " -> "@ + b.shape()
                    + "; create a new blueprint identity"@,
            ]
        } else {
            seq![]
        }) + (if texts(self.permanent_ports@) != b.permanent() {
            seq!["permanent port set changed"@]
        } else {
            seq![]
        }) + (if witness_views(self.witnesses@) != b.sorted_witnesses() {
            seq!["witness contract changed"@]
        } else {
            seq![]
        })
    }

    /// Locks a blueprint: it must be valid, its lifecycle must be locked, and each of its
    /// witnesses must have been run and have passed.
    #[verifier::spinoff_prover]
    pub fn create(blueprint: &Blueprint, results: &Vec<WitnessResult>) -> (r: Result<
        BlueprintLock,
        LockError,
    >)
        ensures
            r is Ok <==> blueprint.lockable(results@),
            match r {
                Ok(l) => l.pins(*blueprint),
                Err(e) => blueprint.refused(results@, e@),
            },
    {
        let errors = blueprint.validate();
        proof {
            if errors@.len() == 0 && blueprint.errors().len() > 0 {
                assert(blueprint.errors().contains(blueprint.errors()[0]));
                assert(texts(errors@).contains(blueprint.errors()[0]));
            }
            if errors@.len() > 0 {
                assert(texts(errors@).contains(texts(errors@)[0]));
            }
        }
        if errors.len() > 0 {
            return Err(LockError::Invalid(errors));
        }
        if blueprint.meta.lifecycle != Lifecycle::Locked {
            return Err(LockError::NotLocked);
        }
        match first_refusal(&blueprint.witnesses, results) {
            Some(e) => {
                return Err(e);
            },
            None => {},
        }
        Ok(
            BlueprintLock {
                schema_version: 2,
                blueprint_id: blueprint.meta.id.clone(),
                shape_digest: blueprint.shape_digest(),
                permanent_ports: blueprint.list_permanent(),
                witnesses: blueprint.list_sorted_witnesses(),
            },
        )
    }

    /// Everything that is wrong with a blueprint under this lock, sorted and without
    /// repetition: what is wrong with its shape, and how it departs from the lock.
    pub fn check(&self, blueprint: &Blueprint) -> (r: Vec<String>)
        ensures
            sorted_set(texts(r@), blueprint.errors() + self.departures(*blueprint)),
    {
        let valid = blueprint.validate();
        let mut errors: Vec<String> = Vec::new();
        assert(texts(errors@) =~= Seq::<Seq<char>>::empty());
        if self.schema_version != 2 {
            put(
                &mut errors,
                cat3(
                    "unsupported blueprint lock schema ",
                    decimal(self.schema_version as u64).as_str(),
                    "; recreate the lock with this Bonsai version",
                ),
            );
        }
        if !same(self.blueprint_id.as_str(), blueprint.meta.id.as_str()) {
            put(
                &mut errors,
                cat5(
                    "lock belongs to '",
                    self.blueprint_id.as_str(),
                    "' not '",
                    blueprint.meta.id.as_str(),
                    "'",
                ),
            );
        }
        let current = blueprint.shape_digest();
        if !same(self.shape_digest.as_str(), current.as_str()) {
            put(
                &mut errors,
                cat5(
                    "locked shape changed: ",
                    self.shape_digest.as_str(),
                    " -> ",
                    current.as_str(),
                    "; create a new blueprint identity",
                ),
            );
        }
        if !same_list(&blueprint.list_permanent(), &self.permanent_ports) {
            put(&mut errors, "permanent port set changed".to_owned());
        }
        if !same_witnesses(&blueprint.list_sorted_witnesses(), &self.witnesses) {
            put(&mut errors, "witness contract changed".to_owned());
        }
        assert(texts(errors@) =~= self.departures(*blueprint));
        let ghost mine = texts(errors@);
        let mut all = valid;
        crate::text::put_all(&mut all, &errors);
        let r = sort_dedup(all);
        proof {
            assert forall|x: Seq<char>| #[trigger] texts(r@).contains(x) <==> (blueprint.errors()
                + self.departures(*blueprint)).contains(x) by {
                concat_contains(texts(valid@), mine, x);
                concat_contains(blueprint.errors(), mine, x);
                assert(texts(r@).contains(x) <==> texts(all@).contains(x));
                assert(texts(valid@).contains(x) <==> blueprint.errors().contains(x));
            }
        }
        r
    }

    /// A blueprint departs from the lock nowhere if and only if the lock holds it to its present
    /// state.
    pub proof fn pins_or_departs(self, b: Blueprint)
        ensures
            self.departures(b).len() == 0 <==> self.pins(b),
    {
    }

    /// A lock just made finds nothing wrong with the blueprint that it was made of.
    pub proof fn fresh_lock_holds(
        self,
        b: Blueprint,
        results: Seq<WitnessResult>,
        errs: Seq<Seq<char>>,
    )
        requires
            b.lockable(results),
            self.pins(b),
            sorted_set(errs, b.errors() + self.departures(b)),
        ensures
            errs.len() == 0,
    {
        self.pins_or_departs(b);
        if errs.len() > 0 {
            assert(errs.contains(errs[0]));
            assert((b.errors() + self.departures(b)).contains(errs[0]));
        }
    }
}

} // verus!
