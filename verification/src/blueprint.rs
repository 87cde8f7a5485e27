//! Declarative architecture blueprints: a logical shape of slots, ports and flows, the
//! implementations that fill it, and the witnesses that prove its contracts.
use vstd::prelude::*;

pub use crate::scaffold::{ScaffoldFile, ScaffoldLanguage};
pub use crate::shape::{BlueprintLock, ChangeClass, LockError, ShapeDiff};

use crate::links::{has_loop, looped};
use crate::order::{pair_views, sort_dedup, sorted_set};
use crate::text::{
    ascii_alphanumeric, cat2, cat3, cat4, cat5, chars, copy_all, gather, gather_empty, holds,
    is_ascii_alphanumeric, put, same, texts, trim, trimmed,
};

verus! {

/// A blueprint.
#[derive(Debug, Clone, PartialEq, Eq)]
pub struct Blueprint {
    pub meta: BlueprintMeta,
    pub slots: Vec<Slot>,
    pub ports: Vec<Port>,
    pub flows: Vec<Flow>,
    pub implementations: Vec<Implementation>,
    pub adapters: Vec<CompatibilityAdapter>,
    pub witnesses: Vec<Witness>,
}

/// The identity of a blueprint.
#[derive(Debug, Clone, PartialEq, Eq)]
pub struct BlueprintMeta {
    pub id: String,
    pub lifecycle: Lifecycle,
    pub description: String,
    /// The blueprint that this one takes over from.
    pub supersedes: Option<String>,
}

/// How far a blueprint has come.
#[derive(Debug, Clone, Copy, PartialEq, Eq, Structural)]
pub enum Lifecycle {
    Draft,
    Locked,
    Superseded,
}

/// A place in the shape that implementations fill.
#[derive(Debug, Clone, PartialEq, Eq)]
pub struct Slot {
    pub id: String,
    pub responsibility: String,
    pub invariants: Vec<String>,
    /// Whether one implementation may fill this slot together with others.
    pub allow_fusion: bool,
}

/// Where data enters or leaves a slot.
#[derive(Debug, Clone, PartialEq, Eq)]
pub struct Port {
    pub id: String,
    pub slot: String,
    pub direction: Direction,
    pub schema: String,
    pub version: String,
    pub compatibility: CompatibilityPolicy,
}

/// The direction of a port.
#[derive(Debug, Clone, Copy, PartialEq, Eq, Structural)]
pub enum Direction {
    Input,
    Output,
}

/// What a port promises to those who use it.
#[derive(Debug, Clone, Copy, PartialEq, Eq, Structural)]
pub enum CompatibilityPolicy {
    Internal,
    Versioned,
    Permanent,
}

/// A way from an output port to an input port.
#[derive(Debug, Clone, PartialEq, Eq)]
pub struct Flow {
    pub from: String,
    pub to: String,
    pub stateful: bool,
    pub optional: bool,
}

/// What fills one or more slots.
#[derive(Debug, Clone, PartialEq, Eq)]
pub struct Implementation {
    pub id: String,
    pub slots: Vec<String>,
    pub bindings: Vec<String>,
    pub variant_of: Option<String>,
}

/// A conversion from one port to another.
#[derive(Debug, Clone, PartialEq, Eq)]
pub struct CompatibilityAdapter {
    pub id: String,
    pub from: String,
    pub to: String,
    pub binding: String,
    pub witnesses: Vec<String>,
}

/// A command that proves something about slots and ports.
#[derive(Debug, Clone, PartialEq, Eq)]
pub struct Witness {
    pub id: String,
    pub kind: WitnessKind,
    pub command: String,
    pub covers: Vec<String>,
}

/// What a witness proves.
#[derive(Debug, Clone, Copy, PartialEq, Eq, Structural)]
pub enum WitnessKind {
    Static,
    Typecheck,
    Schema,
    Golden,
    Property,
    Differential,
    Abi,
    Command,
}

/// What came of running a witness.
#[derive(Debug, Clone, PartialEq, Eq)]
pub struct WitnessResult {
    pub id: String,
    pub passed: bool,
    pub detail: String,
}

impl Default for Lifecycle {
    fn default() -> (r: Lifecycle)
        ensures
            r == Lifecycle::Draft,
    {
        Lifecycle::Draft
    }
}

impl Default for CompatibilityPolicy {
    fn default() -> (r: CompatibilityPolicy)
        ensures
            r == CompatibilityPolicy::Internal,
    {
        CompatibilityPolicy::Internal
    }
}

impl WitnessResult {
    /// The result of a witness that passed.
    pub fn passed(id: String) -> (r: WitnessResult)
        ensures
            r.id == id,
            r.passed,
            r.detail@.len() == 0,
    {
        WitnessResult { id, passed: true, detail: String::new() }
    }

    /// The result of a witness that failed, and why.
    pub fn failed(id: String, detail: String) -> (r: WitnessResult)
        ensures
            r.id == id,
            !r.passed,
            r.detail == detail,
    {
        WitnessResult { id, passed: false, detail }
    }
}

/// What running a witness command came to.
#[derive(Debug, Clone, PartialEq, Eq)]
pub enum CommandOutcome {
    /// The command ran and succeeded.
    Succeeded,
    /// The command ran and ended with this status.
    Exited(String),
    /// The command could not be run, and why.
    Unstarted(String),
}

impl Witness {
    /// Whether there is nothing to run.
    pub open spec fn idle(self) -> bool {
        trimmed(self.command@).len() == 0
    }

    /// Whether there is nothing to run.
    pub fn is_idle(&self) -> (r: bool)
        ensures
            r == self.idle(),
    {
        chars(trim(self.command.as_str()).as_str()).len() == 0
    }

    /// The result of the witness from what running its command came to; a witness without a
    /// command fails.
    pub fn result(&self, outcome: &CommandOutcome) -> (r: WitnessResult)
        ensures
            r.id@ == self.id@,
            r.passed == (!self.idle() && outcome is Succeeded),
            r.detail@ == if self.idle() {
                "witness command is empty"@
            } else {
                match *outcome {
                    CommandOutcome::Succeeded => Seq::empty(),
                    CommandOutcome::Exited(status) => "command exited with "@ + status@,
                    CommandOutcome::Unstarted(error) => error@,
                }
            },
    {
        if self.is_idle() {
            return WitnessResult::failed(self.id.clone(), "witness command is empty".to_owned());
        }
        match outcome {
            CommandOutcome::Succeeded => {
                let r = WitnessResult::passed(self.id.clone());
                assert(r.detail@ =~= Seq::<char>::empty());
                r
            },
            CommandOutcome::Exited(status) => WitnessResult::failed(
                self.id.clone(),
                cat2("command exited with ", status.as_str()),
            ),
            CommandOutcome::Unstarted(error) => WitnessResult::failed(self.id.clone(), error.clone()),
        }
    }
}

// ── what a blueprint says ──────────────────────────────────────────────────────────────

/// The last of the first `n` ports with an id.
pub open spec fn last_port(ports: Seq<Port>, id: Seq<char>, n: int) -> Option<Port>
    decreases n,
{
    if n <= 0 {
        None
    } else if ports[n - 1].id@ == id {
        Some(ports[n - 1])
    } else {
        last_port(ports, id, n - 1)
    }
}

/// The first slot from position `i` on with an id.
pub open spec fn first_slot(slots: Seq<Slot>, id: Seq<char>, i: int) -> Option<Slot>
    decreases slots.len() - i,
{
    if i >= slots.len() {
        None
    } else if slots[i].id@ == id {
        Some(slots[i])
    } else {
        first_slot(slots, id, i + 1)
    }
}

/// Whether an id holds a character, and only ASCII letters and digits, dots, hyphens and
/// underscores.
pub open spec fn safe_id(id: Seq<char>) -> bool {
    id.len() > 0 && forall|i: int|
        0 <= i < id.len() ==> {
            let c = #[trigger] id[i];
            ascii_alphanumeric(c) || c == '.' || c == '-' || c == '_'
        }
}

/// What is wrong with one of several ids of a kind: it is blank, or it occurred before.
pub open spec fn id_errors(kind: Seq<char>, ids: Seq<Seq<char>>) -> spec_fn(int) -> Seq<Seq<char>> {
    |i: int|
        if trimmed(ids[i]).len() == 0 {
            seq![kind + " id must not be empty"@]
        } else if exists|j: int| 0 <= j < i && #[trigger] ids[j] == ids[i] {
            seq!["duplicate "@ + kind + " id '"@ + ids[i] + "'"@]
        } else {
            seq![]
        }
}

/// What is wrong with the characters of one of several ids of a kind.
pub open spec fn unsafe_errors(kind: Seq<char>, ids: Seq<Seq<char>>) -> spec_fn(int) -> Seq<
    Seq<char>,
> {
    |i: int|
        if safe_id(ids[i]) {
            seq![]
        } else {
            seq![
                kind + " id '"@ + ids[i] + "' must use only letters, digits, '.', '-', or '_'"@,
            ]
        }
}

/// What is wrong with all the ids of a kind.
pub open spec fn all_id_errors(kind: Seq<char>, ids: Seq<Seq<char>>) -> Seq<Seq<char>> {
    gather(ids.len() as int, id_errors(kind, ids))
}

/// What is wrong with the characters of all the ids of a kind.
pub open spec fn all_unsafe_errors(kind: Seq<char>, ids: Seq<Seq<char>>) -> Seq<Seq<char>> {
    gather(ids.len() as int, unsafe_errors(kind, ids))
}

/// The strings that do not occur among the known ones, each between two texts.
pub open spec fn unknown_errors(
    used: Seq<Seq<char>>,
    known: Seq<Seq<char>>,
    before: Seq<char>,
    after: Seq<char>,
) -> spec_fn(int) -> Seq<Seq<char>> {
    |i: int|
        if known.contains(used[i]) {
            seq![]
        } else {
            seq![before + used[i] + after]
        }
}

impl Blueprint {
    pub open spec fn slot_ids(self) -> Seq<Seq<char>> {
        self.slots@.map_values(|s: Slot| s.id@)
    }

    pub open spec fn port_ids(self) -> Seq<Seq<char>> {
        self.ports@.map_values(|p: Port| p.id@)
    }

    pub open spec fn implementation_ids(self) -> Seq<Seq<char>> {
        self.implementations@.map_values(|i: Implementation| i.id@)
    }

    pub open spec fn adapter_ids(self) -> Seq<Seq<char>> {
        self.adapters@.map_values(|a: CompatibilityAdapter| a.id@)
    }

    pub open spec fn adapter_sources(self) -> Seq<Seq<char>> {
        self.adapters@.map_values(|a: CompatibilityAdapter| a.from@)
    }

    pub open spec fn witness_ids(self) -> Seq<Seq<char>> {
        self.witnesses@.map_values(|w: Witness| w.id@)
    }

    /// The port that an id stands for: the last one that has it.
    pub open spec fn port(self, id: Seq<char>) -> Option<Port> {
        last_port(self.ports@, id, self.ports@.len() as int)
    }

    /// What is wrong with a port.
    pub open spec fn port_errors(self) -> spec_fn(int) -> Seq<Seq<char>> {
        |i: int|
            {
                let p = self.ports@[i];
                (if self.slot_ids().contains(p.slot@) {
                    seq![]
                } else {
                    seq!["port '"@ + p.id@ + "': slot '"@ + p.slot@ + "' does not exist"@]
                }) + (if trimmed(p.schema@).len() == 0 {
                    seq!["port '"@ + p.id@ + "': schema must not be empty"@]
                } else {
                    seq![]
                })
            }
    }

    /// What is wrong with a flow.
    pub open spec fn flow_errors(self) -> spec_fn(int) -> Seq<Seq<char>> {
        |i: int|
            {
                let f = self.flows@[i];
                (match self.port(f.from@) {
                    None => seq!["flow: source port '"@ + f.from@ + "' does not exist"@],
                    Some(p) => if p.direction != Direction::Output {
                        seq!["flow: source port '"@ + f.from@ + "' is not an output"@]
                    } else {
                        seq![]
                    },
                }) + (match self.port(f.to@) {
                    None => seq!["flow: target port '"@ + f.to@ + "' does not exist"@],
                    Some(p) => if p.direction != Direction::Input {
                        seq!["flow: target port '"@ + f.to@ + "' is not an input"@]
                    } else {
                        seq![]
                    },
                })
            }
    }

    /// What is wrong with the fusion of a slot of an implementation.
    pub open spec fn fusion_errors(self, m: Implementation) -> spec_fn(int) -> Seq<Seq<char>> {
        |i: int|
            match first_slot(self.slots@, m.slots@[i]@, 0) {
                Some(s) => if s.allow_fusion {
                    seq![]
                } else {
                    seq![
                        "implementation '"@ + m.id@ + "': fused slot '"@ + m.slots@[i]@
                            + "' does not allow fusion"@,
                    ]
                },
                None => seq![],
            }
    }

    /// Whether a differential witness covers every slot of an implementation.
    pub open spec fn differential(self, m: Implementation) -> bool {
        exists|k: int|
            0 <= k < self.witnesses@.len() && (#[trigger] self.witnesses@[k]).kind
                == WitnessKind::Differential && covers_all(self.witnesses@[k], m)
    }

    /// What is wrong with an implementation.
    pub open spec fn implementation_errors(self) -> spec_fn(int) -> Seq<Seq<char>> {
        |i: int|
            {
                let m = self.implementations@[i];
                (if m.slots@.len() == 0 {
                    seq!["implementation '"@ + m.id@ + "': no slots"@]
                } else {
                    seq![]
                }) + gather(
                    m.slots@.len() as int,
                    unknown_errors(
                        texts(m.slots@),
                        self.slot_ids(),
                        "implementation '"@ + m.id@ + "': slot '"@,
                        "' does not exist"@,
                    ),
                ) + (if m.slots@.len() > 1 {
                    gather(m.slots@.len() as int, self.fusion_errors(m)) + (if self.differential(
                        m,
                    ) {
                        seq![]
                    } else {
                        seq![
                            "implementation '"@ + m.id@
                                + "': fused slots require a differential witness covering every slot"@,
                        ]
                    })
                } else {
                    seq![]
                })
            }
    }

    /// What is wrong with the ports of an adapter.
    pub open spec fn adapter_port_errors(self, a: CompatibilityAdapter) -> Seq<Seq<char>> {
        (if self.port_ids().contains(a.from@) {
            seq![]
        } else {
            seq!["adapter '"@ + a.id@ + "': from port '"@ + a.from@ + "' does not exist"@]
        }) + (if self.port_ids().contains(a.to@) {
            seq![]
        } else {
            seq!["adapter '"@ + a.id@ + "': to port '"@ + a.to@ + "' does not exist"@]
        }) + (if self.adapter_sources().contains(a.to@) {
            seq![
                "adapter '"@ + a.id@ + "': adapter chain through '"@ + a.to@
                    + "' is forbidden; adapt directly to the current port"@,
            ]
        } else {
            seq![]
        })
    }

    /// What is wrong with the witnesses of an adapter.
    pub open spec fn adapter_witness_errors(self, a: CompatibilityAdapter) -> Seq<Seq<char>> {
        (if a.witnesses@.len() == 0 {
            seq!["adapter '"@ + a.id@ + "': no compatibility witnesses"@]
        } else {
            seq![]
        }) + gather(
            a.witnesses@.len() as int,
            unknown_errors(
                texts(a.witnesses@),
                self.witness_ids(),
                "adapter '"@ + a.id@ + "': witness '"@,
                "' does not exist"@,
            ),
        )
    }

    /// What is wrong with an adapter.
    pub open spec fn adapter_errors(self) -> spec_fn(int) -> Seq<Seq<char>> {
        |i: int|
            self.adapter_port_errors(self.adapters@[i]) + self.adapter_witness_errors(
                self.adapters@[i],
            )
    }

    /// What is wrong with a witness.
    pub open spec fn witness_errors(self) -> spec_fn(int) -> Seq<Seq<char>> {
        |i: int|
            {
                let w = self.witnesses@[i];
                gather(
                    w.covers@.len() as int,
                    unknown_errors(
                        texts(w.covers@),
                        self.slot_ids() + self.port_ids(),
                        "witness '"@ + w.id@ + "': target '"@,
                        "' does not exist"@,
                    ),
                )
            }
    }

    /// The link between slots that a flow without state makes.
    pub open spec fn flow_link(self) -> spec_fn(int) -> Seq<(Seq<char>, Seq<char>)> {
        |i: int|
            {
                let f = self.flows@[i];
                match (self.port(f.from@), self.port(f.to@)) {
                    (Some(a), Some(b)) => if f.stateful {
                        seq![]
                    } else {
                        seq![(a.slot@, b.slot@)]
                    },
                    _ => seq![],
                }
            }
    }

    /// The links between slots that the flows without state make.
    pub open spec fn flow_links(self) -> Seq<(Seq<char>, Seq<char>)> {
        gather(self.flows@.len() as int, self.flow_link())
    }

    /// What is wrong with the ids.
    pub open spec fn identity_errors(self) -> Seq<Seq<char>> {
        (if trimmed(self.meta.id@).len() == 0 {
            seq!["blueprint id must not be empty"@]
        } else {
            seq![]
        }) + all_id_errors("slot"@, self.slot_ids()) + all_id_errors("port"@, self.port_ids())
            + all_id_errors("implementation"@, self.implementation_ids()) + all_id_errors(
            "adapter"@,
            self.adapter_ids(),
        ) + all_id_errors("witness"@, self.witness_ids()) + all_unsafe_errors(
            "slot"@,
            self.slot_ids(),
        ) + all_unsafe_errors("port"@, self.port_ids())
    }

    /// What is wrong with the loops of the flows.
    pub open spec fn loop_errors(self) -> Seq<Seq<char>> {
        if looped(self.flow_links()) {
            seq!["flow cycle must include an explicitly stateful flow"@]
        } else {
            seq![]
        }
    }

    /// Everything that is wrong with the shape.
    pub open spec fn errors(self) -> Seq<Seq<char>> {
        self.identity_errors() + gather(self.ports@.len() as int, self.port_errors()) + gather(
            self.flows@.len() as int,
            self.flow_errors(),
        ) + gather(self.implementations@.len() as int, self.implementation_errors()) + gather(
            self.adapters@.len() as int,
            self.adapter_errors(),
        ) + gather(self.witnesses@.len() as int, self.witness_errors()) + self.loop_errors()
    }
}

/// Whether a witness covers every slot of an implementation.
pub open spec fn covers_all(w: Witness, m: Implementation) -> bool {
    forall|j: int| 0 <= j < m.slots@.len() ==> texts(w.covers@).contains(#[trigger] m.slots@[j]@)
}

// ── validation ─────────────────────────────────────────────────────────────────────────

/// Whether an id holds a character, and only ASCII letters and digits, dots, hyphens and
/// underscores.
pub(crate) fn is_safe_id(id: &str) -> (r: bool)
    ensures
        r == safe_id(id@),
{
    let a = chars(id);
    if a.len() == 0 {
        return false;
    }
    let mut i: usize = 0;
    while i < a.len()
        invariant
            i <= a.len(),
            a@ == id@,
            forall|j: int|
                0 <= j < i ==> {
                    let c = #[trigger] id@[j];
                    ascii_alphanumeric(c) || c == '.' || c == '-' || c == '_'
                },
        decreases a.len() - i,
    {
        let c = a[i];
        if !(is_ascii_alphanumeric(c) || c == '.' || c == '-' || c == '_') {
            assert(id@[i as int] == c);
            return false;
        }
        i += 1;
    }
    true
}

/// Whether a text is empty or all whitespace.
pub(crate) fn is_blank(s: &str) -> (r: bool)
    ensures
        r == (trimmed(s@).len() == 0),
{
    chars(trim(s).as_str()).len() == 0
}

/// Reports blank and repeated ids of a kind.
fn unique(kind: &str, ids: &Vec<String>, errors: &mut Vec<String>)
    ensures
        texts(final(errors)@) == texts(old(errors)@) + all_id_errors(kind@, texts(ids@)),
{
    let ghost base = texts(errors@);
    let ghost all = texts(ids@);
    let mut i: usize = 0;
    while i < ids.len()
        invariant
            i <= ids.len(),
            all == texts(ids@),
            texts(errors@) =~= base + gather(i as int, id_errors(kind@, all)),
        decreases ids.len() - i,
    {
        let id = &ids[i];
        assert(all[i as int] == id@);
        if is_blank(id.as_str()) {
            put(errors, cat2(kind, " id must not be empty"));
        } else {
            let mut repeated = false;
            let mut j: usize = 0;
            while j < i && !repeated
                invariant
                    j <= i < ids.len(),
                    all == texts(ids@),
                    id@ == all[i as int],
                    repeated ==> exists|k: int| 0 <= k < i && #[trigger] all[k] == all[i as int],
                    !repeated ==> forall|k: int| 0 <= k < j ==> #[trigger] all[k] != all[i as int],
                decreases i - j + (if repeated { 0int } else { 1int }),
            {
                assert(all[j as int] == ids@[j as int]@);
                if same(ids[j].as_str(), id.as_str()) {
                    repeated = true;
                } else {
                    j += 1;
                }
            }
            if repeated {
                put(errors, cat5("duplicate ", kind, " id '", id.as_str(), "'"));
            }
        }
        i += 1;
    }
}

/// Reports ids of a kind with other characters than ids may have.
fn check_safe(kind: &str, ids: &Vec<String>, errors: &mut Vec<String>)
    ensures
        texts(final(errors)@) == texts(old(errors)@) + all_unsafe_errors(kind@, texts(ids@)),
{
    let ghost base = texts(errors@);
    let ghost all = texts(ids@);
    let mut i: usize = 0;
    while i < ids.len()
        invariant
            i <= ids.len(),
            all == texts(ids@),
            texts(errors@) =~= base + gather(i as int, unsafe_errors(kind@, all)),
        decreases ids.len() - i,
    {
        let id = &ids[i];
        assert(all[i as int] == id@);
        if !is_safe_id(id.as_str()) {
            put(
                errors,
                cat4(
                    kind,
                    " id '",
                    id.as_str(),
                    "' must use only letters, digits, '.', '-', or '_'",
                ),
            );
        }
        i += 1;
    }
}

/// Reports the strings that do not occur among the known ones.
fn check_known(
    used: &Vec<String>,
    known: &Vec<String>,
    before: &str,
    after: &str,
    errors: &mut Vec<String>,
)
    ensures
        texts(final(errors)@) == texts(old(errors)@) + gather(
            used@.len() as int,
            unknown_errors(texts(used@), texts(known@), before@, after@),
        ),
{
    let ghost base = texts(errors@);
    let ghost all = texts(used@);
    let mut i: usize = 0;
    while i < used.len()
        invariant
            i <= used.len(),
            all == texts(used@),
            texts(errors@) =~= base + gather(
                i as int,
                unknown_errors(all, texts(known@), before@, after@),
            ),
        decreases used.len() - i,
    {
        assert(all[i as int] == used@[i as int]@);
        if !holds(known, used[i].as_str()) {
            put(errors, cat3(before, used[i].as_str(), after));
        }
        i += 1;
    }
}

impl Blueprint {
    /// The ids of the slots.
    fn list_slots(&self) -> (r: Vec<String>)
        ensures
            texts(r@) == self.slot_ids(),
    {
        let mut r: Vec<String> = Vec::new();
        let mut i: usize = 0;
        while i < self.slots.len()
            invariant
                i <= self.slots.len(),
                texts(r@) =~= self.slot_ids().take(i as int),
            decreases self.slots.len() - i,
        {
            put(&mut r, self.slots[i].id.clone());
            i += 1;
        }
        r
    }

    /// The ids of the ports.
    pub(crate) fn list_ports(&self) -> (r: Vec<String>)
        ensures
            texts(r@) == self.port_ids(),
    {
        let mut r: Vec<String> = Vec::new();
        let mut i: usize = 0;
        while i < self.ports.len()
            invariant
                i <= self.ports.len(),
                texts(r@) =~= self.port_ids().take(i as int),
            decreases self.ports.len() - i,
        {
            put(&mut r, self.ports[i].id.clone());
            i += 1;
        }
        r
    }

    /// The ids of the implementations.
    fn list_implementations(&self) -> (r: Vec<String>)
        ensures
            texts(r@) == self.implementation_ids(),
    {
        let mut r: Vec<String> = Vec::new();
        let mut i: usize = 0;
        while i < self.implementations.len()
            invariant
                i <= self.implementations.len(),
                texts(r@) =~= self.implementation_ids().take(i as int),
            decreases self.implementations.len() - i,
        {
            put(&mut r, self.implementations[i].id.clone());
            i += 1;
        }
        r
    }

    /// The ids of the adapters, and the ports that they adapt.
    fn list_adapters(&self) -> (r: (Vec<String>, Vec<String>))
        ensures
            texts(r.0@) == self.adapter_ids(),
            texts(r.1@) == self.adapter_sources(),
    {
        let mut ids: Vec<String> = Vec::new();
        let mut from: Vec<String> = Vec::new();
        let mut i: usize = 0;
        while i < self.adapters.len()
            invariant
                i <= self.adapters.len(),
                texts(ids@) =~= self.adapter_ids().take(i as int),
                texts(from@) =~= self.adapter_sources().take(i as int),
            decreases self.adapters.len() - i,
        {
            put(&mut ids, self.adapters[i].id.clone());
            put(&mut from, self.adapters[i].from.clone());
            i += 1;
        }
        (ids, from)
    }

    /// The ids of the witnesses.
    fn list_witnesses(&self) -> (r: Vec<String>)
        ensures
            texts(r@) == self.witness_ids(),
    {
        let mut r: Vec<String> = Vec::new();
        let mut i: usize = 0;
        while i < self.witnesses.len()
            invariant
                i <= self.witnesses.len(),
                texts(r@) =~= self.witness_ids().take(i as int),
            decreases self.witnesses.len() - i,
        {
            put(&mut r, self.witnesses[i].id.clone());
            i += 1;
        }
        r
    }

    /// The port that an id stands for.
    pub(crate) fn find_port(&self, id: &str) -> (r: Option<&Port>)
        ensures
            match r {
                Some(p) => self.port(id@) == Some(*p),
                None => self.port(id@) is None,
            },
    {
        let mut n: usize = self.ports.len();
        while n > 0
            invariant
                n <= self.ports.len(),
                self.port(id@) == last_port(self.ports@, id@, n as int),
            decreases n,
        {
            if same(self.ports[n - 1].id.as_str(), id) {
                return Some(&self.ports[n - 1]);
            }
            n -= 1;
        }
        None
    }

    /// Whether the first slot with an id is there and forbids fusion.
    fn forbids_fusion(&self, id: &str) -> (r: bool)
        ensures
            r == (match first_slot(self.slots@, id@, 0) {
                Some(s) => !s.allow_fusion,
                None => false,
            }),
    {
        let mut i: usize = 0;
        while i < self.slots.len()
            invariant
                i <= self.slots.len(),
                first_slot(self.slots@, id@, 0) == first_slot(self.slots@, id@, i as int),
            decreases self.slots.len() - i,
        {
            if same(self.slots[i].id.as_str(), id) {
                return !self.slots[i].allow_fusion;
            }
            i += 1;
        }
        false
    }

    /// Whether a differential witness covers every slot of an implementation.
    fn has_differential(&self, m: &Implementation) -> (r: bool)
        ensures
            r == self.differential(*m),
    {
        let mut k: usize = 0;
        while k < self.witnesses.len()
            invariant
                k <= self.witnesses.len(),
                forall|n: int|
                    0 <= n < k ==> !((#[trigger] self.witnesses@[n]).kind
                        == WitnessKind::Differential && covers_all(self.witnesses@[n], *m)),
            decreases self.witnesses.len() - k,
        {
            let w = &self.witnesses[k];
            if w.kind == WitnessKind::Differential {
                let mut all = true;
                let mut j: usize = 0;
                while j < m.slots.len() && all
                    invariant
                        j <= m.slots.len(),
                        all ==> forall|x: int|
                            0 <= x < j ==> texts(w.covers@).contains(#[trigger] m.slots@[x]@),
                        !all ==> !covers_all(*w, *m),
                    decreases m.slots.len() - j + (if all { 1int } else { 0int }),
                {
                    if holds(&w.covers, m.slots[j].as_str()) {
                        j += 1;
                    } else {
                        assert(!texts(w.covers@).contains(m.slots@[j as int]@));
                        all = false;
                    }
                }
                if all {
                    assert(covers_all(self.witnesses@[k as int], *m));
                    return true;
                }
            }
            k += 1;
        }
        false
    }

    fn check_ports(&self, slots: &Vec<String>, errors: &mut Vec<String>)
        requires
            texts(slots@) == self.slot_ids(),
        ensures
            texts(final(errors)@) == texts(old(errors)@) + gather(
                self.ports@.len() as int,
                self.port_errors(),
            ),
    {
        let ghost base = texts(errors@);
        let mut i: usize = 0;
        while i < self.ports.len()
            invariant
                i <= self.ports.len(),
                texts(slots@) == self.slot_ids(),
                texts(errors@) =~= base + gather(i as int, self.port_errors()),
            decreases self.ports.len() - i,
        {
            let p = &self.ports[i];
            if !holds(slots, p.slot.as_str()) {
                put(
                    errors,
                    cat5("port '", p.id.as_str(), "': slot '", p.slot.as_str(), "' does not exist"),
                );
            }
            if is_blank(p.schema.as_str()) {
                put(errors, cat3("port '", p.id.as_str(), "': schema must not be empty"));
            }
            i += 1;
        }
    }

    fn check_flows(&self, errors: &mut Vec<String>)
        ensures
            texts(final(errors)@) == texts(old(errors)@) + gather(
                self.flows@.len() as int,
                self.flow_errors(),
            ),
    {
        let ghost base = texts(errors@);
        let mut i: usize = 0;
        while i < self.flows.len()
            invariant
                i <= self.flows.len(),
                texts(errors@) =~= base + gather(i as int, self.flow_errors()),
            decreases self.flows.len() - i,
        {
            let f = &self.flows[i];
            match self.find_port(f.from.as_str()) {
                None => {
                    put(errors, cat3("flow: source port '", f.from.as_str(), "' does not exist"));
                },
                Some(p) => if p.direction != Direction::Output {
                    put(errors, cat3("flow: source port '", f.from.as_str(), "' is not an output"));
                },
            }
            match self.find_port(f.to.as_str()) {
                None => {
                    put(errors, cat3("flow: target port '", f.to.as_str(), "' does not exist"));
                },
                Some(p) => if p.direction != Direction::Input {
                    put(errors, cat3("flow: target port '", f.to.as_str(), "' is not an input"));
                },
            }
            i += 1;
        }
    }

    fn check_fusion(&self, m: &Implementation, errors: &mut Vec<String>)
        ensures
            texts(final(errors)@) == texts(old(errors)@) + gather(
                m.slots@.len() as int,
                self.fusion_errors(*m),
            ),
    {
        let ghost base = texts(errors@);
        let mut i: usize = 0;
        while i < m.slots.len()
            invariant
                i <= m.slots.len(),
                texts(errors@) =~= base + gather(i as int, self.fusion_errors(*m)),
            decreases m.slots.len() - i,
        {
            if self.forbids_fusion(m.slots[i].as_str()) {
                put(
                    errors,
                    cat5(
                        "implementation '",
                        m.id.as_str(),
                        "': fused slot '",
                        m.slots[i].as_str(),
                        "' does not allow fusion",
                    ),
                );
            }
            i += 1;
        }
    }

    fn check_implementations(&self, slots: &Vec<String>, errors: &mut Vec<String>)
        requires
            texts(slots@) == self.slot_ids(),
        ensures
            texts(final(errors)@) == texts(old(errors)@) + gather(
                self.implementations@.len() as int,
                self.implementation_errors(),
            ),
    {
        let ghost base = texts(errors@);
        let mut i: usize = 0;
        while i < self.implementations.len()
            invariant
                i <= self.implementations.len(),
                texts(slots@) == self.slot_ids(),
                texts(errors@) =~= base + gather(i as int, self.implementation_errors()),
            decreases self.implementations.len() - i,
        {
            let m = &self.implementations[i];
            if m.slots.len() == 0 {
                put(errors, cat3("implementation '", m.id.as_str(), "': no slots"));
            }
            let before = cat3("implementation '", m.id.as_str(), "': slot '");
            check_known(&m.slots, slots, before.as_str(), "' does not exist", errors);
            if m.slots.len() > 1 {
                self.check_fusion(m, errors);
                if !self.has_differential(m) {
                    put(
                        errors,
                        cat3(
                            "implementation '",
                            m.id.as_str(),
                            "': fused slots require a differential witness covering every slot",
                        ),
                    );
                }
            }
            i += 1;
        }
    }

    fn check_adapter_ports(
        &self,
        a: &CompatibilityAdapter,
        ports: &Vec<String>,
        sources: &Vec<String>,
        errors: &mut Vec<String>,
    )
        requires
            texts(ports@) == self.port_ids(),
            texts(sources@) == self.adapter_sources(),
        ensures
            texts(final(errors)@) == texts(old(errors)@) + self.adapter_port_errors(*a),
    {
        let ghost base = texts(errors@);
        if !holds(ports, a.from.as_str()) {
            put(
                errors,
                cat5("adapter '", a.id.as_str(), "': from port '", a.from.as_str(), "' does not exist"),
            );
        }
        if !holds(ports, a.to.as_str()) {
            put(
                errors,
                cat5("adapter '", a.id.as_str(), "': to port '", a.to.as_str(), "' does not exist"),
            );
        }
        if holds(sources, a.to.as_str()) {
            put(
                errors,
                cat5(
                    "adapter '",
                    a.id.as_str(),
                    "': adapter chain through '",
                    a.to.as_str(),
                    "' is forbidden; adapt directly to the current port",
                ),
            );
        }
        assert(texts(errors@) =~= base + self.adapter_port_errors(*a));
    }

    fn check_adapters(
        &self,
        ports: &Vec<String>,
        sources: &Vec<String>,
        witnesses: &Vec<String>,
        errors: &mut Vec<String>,
    )
        requires
            texts(ports@) == self.port_ids(),
            texts(sources@) == self.adapter_sources(),
            texts(witnesses@) == self.witness_ids(),
        ensures
            texts(final(errors)@) == texts(old(errors)@) + gather(
                self.adapters@.len() as int,
                self.adapter_errors(),
            ),
    {
        let ghost base = texts(errors@);
        let mut i: usize = 0;
        while i < self.adapters.len()
            invariant
                i <= self.adapters.len(),
                texts(ports@) == self.port_ids(),
                texts(sources@) == self.adapter_sources(),
                texts(witnesses@) == self.witness_ids(),
                texts(errors@) =~= base + gather(i as int, self.adapter_errors()),
            decreases self.adapters.len() - i,
        {
            let a = &self.adapters[i];
            self.check_adapter_ports(a, ports, sources, errors);
            if a.witnesses.len() == 0 {
                put(errors, cat3("adapter '", a.id.as_str(), "': no compatibility witnesses"));
            }
            let before = cat3("adapter '", a.id.as_str(), "': witness '");
            check_known(&a.witnesses, witnesses, before.as_str(), "' does not exist", errors);
            i += 1;
        }
    }

    fn check_witnesses(&self, coverable: &Vec<String>, errors: &mut Vec<String>)
        requires
            texts(coverable@) == self.slot_ids() + self.port_ids(),
        ensures
            texts(final(errors)@) == texts(old(errors)@) + gather(
                self.witnesses@.len() as int,
                self.witness_errors(),
            ),
    {
        let ghost base = texts(errors@);
        let mut i: usize = 0;
        while i < self.witnesses.len()
            invariant
                i <= self.witnesses.len(),
                texts(coverable@) == self.slot_ids() + self.port_ids(),
                texts(errors@) =~= base + gather(i as int, self.witness_errors()),
            decreases self.witnesses.len() - i,
        {
            let w = &self.witnesses[i];
            let before = cat3("witness '", w.id.as_str(), "': target '");
            check_known(&w.covers, coverable, before.as_str(), "' does not exist", errors);
            i += 1;
        }
    }

    /// Whether slots feed back into themselves by flows without state alone.
    fn has_unmarked_cycle(&self) -> (r: bool)
        ensures
            r == looped(self.flow_links()),
    {
        let mut es: Vec<(String, String)> = Vec::new();
        let mut i: usize = 0;
        while i < self.flows.len()
            invariant
                i <= self.flows.len(),
                pair_views(es@) =~= gather(i as int, self.flow_link()),
            decreases self.flows.len() - i,
        {
            let f = &self.flows[i];
            let ghost before = es@;
            match (self.find_port(f.from.as_str()), self.find_port(f.to.as_str())) {
                (Some(a), Some(b)) => if !f.stateful {
                    es.push((a.slot.clone(), b.slot.clone()));
                    assert(pair_views(es@) =~= pair_views(before).push((a.slot@, b.slot@)));
                },
                _ => {},
            }
            i += 1;
        }
        has_loop(&es)
    }

    /// Everything that is wrong with the shape, sorted and without repetition; nothing is read
    /// from disk and no witness is run.
    pub fn validate(&self) -> (r: Vec<String>)
        ensures
            sorted_set(texts(r@), self.errors()),
    {
        let slots = self.list_slots();
        let ports = self.list_ports();
        let (adapters, sources) = self.list_adapters();
        let witnesses = self.list_witnesses();
        let mut errors: Vec<String> = Vec::new();
        assert(texts(errors@) =~= Seq::<Seq<char>>::empty());
        if is_blank(self.meta.id.as_str()) {
            put(&mut errors, "blueprint id must not be empty".to_owned());
        }
        unique("slot", &slots, &mut errors);
        unique("port", &ports, &mut errors);
        unique("implementation", &self.list_implementations(), &mut errors);
        unique("adapter", &adapters, &mut errors);
        unique("witness", &witnesses, &mut errors);
        check_safe("slot", &slots, &mut errors);
        check_safe("port", &ports, &mut errors);
        assert(texts(errors@) =~= self.identity_errors());
        self.check_ports(&slots, &mut errors);
        self.check_flows(&mut errors);
        self.check_implementations(&slots, &mut errors);
        self.check_adapters(&ports, &sources, &witnesses, &mut errors);
        let mut coverable = copy_all(&slots);
        crate::text::put_all(&mut coverable, &ports);
        self.check_witnesses(&coverable, &mut errors);
        if self.has_unmarked_cycle() {
            put(&mut errors, "flow cycle must include an explicitly stateful flow".to_owned());
        }
        assert(texts(errors@) =~= self.errors());
        sort_dedup(errors)
    }
}

// ── what validation promises ───────────────────────────────────────────────────────────

impl Blueprint {
    /// Whether the shape holds together: ids of slots and ports are distinct, flows lead from
    /// outputs to inputs, only slots that allow it are filled together, and under a witness
    /// that covers them all, no adapter leads to what another adapter adapts, and every loop
    /// of flows has a stateful one.
    pub open spec fn coherent(self) -> bool {
        &&& forall|i: int, j: int|
            0 <= i < j < self.slots@.len() ==> (#[trigger] self.slots@[i]).id@ != (
            #[trigger] self.slots@[j]).id@
        &&& forall|i: int, j: int|
            0 <= i < j < self.ports@.len() ==> (#[trigger] self.ports@[i]).id@ != (
            #[trigger] self.ports@[j]).id@
        &&& forall|i: int|
            0 <= i < self.ports@.len() ==> self.slot_ids().contains(
                (#[trigger] self.ports@[i]).slot@,
            )
        &&& forall|i: int|
            0 <= i < self.flows@.len() ==> (match (
                self.port((#[trigger] self.flows@[i]).from@),
                self.port(self.flows@[i].to@),
            ) {
                (Some(a), Some(b)) => a.direction == Direction::Output && b.direction
                    == Direction::Input,
                _ => false,
            })
        &&& forall|i: int|
            0 <= i < self.implementations@.len() && (#[trigger] self.implementations@[i]).slots@.len()
                > 1 ==> self.differential(self.implementations@[i]) && forall|k: int|
                0 <= k < self.implementations@[i].slots@.len() ==> (match first_slot(
                    self.slots@,
                    #[trigger] self.implementations@[i].slots@[k]@,
                    0,
                ) {
                    Some(s) => s.allow_fusion,
                    None => false,
                })
        &&& forall|i: int, j: int|
            0 <= i < self.adapters@.len() && 0 <= j < self.adapters@.len() ==> (
            #[trigger] self.adapters@[i]).to@ != (#[trigger] self.adapters@[j]).from@
        &&& !looped(self.flow_links())
    }

    /// A blueprint that validates without an error holds together.
    pub proof fn clean_is_coherent(self, r: Seq<Seq<char>>)
        requires
            sorted_set(r, self.errors()),
            r.len() == 0,
        ensures
            self.coherent(),
    {
        if self.errors().len() > 0 {
            assert(self.errors().contains(self.errors()[0]));
            assert(r.contains(self.errors()[0]));
        }
        self.no_errors();
        self.ids_distinct();
        self.flows_directed();
        self.adapters_direct();
        gather_empty(self.implementations@.len() as int, self.implementation_errors());
        assert forall|i: int|
            0 <= i < self.implementations@.len() && (#[trigger] self.implementations@[i]).slots@.len()
                > 1 implies self.differential(self.implementations@[i]) && forall|k: int|
            0 <= k < self.implementations@[i].slots@.len() ==> (match first_slot(
                self.slots@,
                #[trigger] self.implementations@[i].slots@[k]@,
                0,
            ) {
                Some(s) => s.allow_fusion,
                None => false,
            }) by {
            assert((self.implementation_errors())(i).len() == 0);
            self.fused_is_allowed(i);
        }
    }

    proof fn no_errors(self)
        requires
            self.errors().len() == 0,
        ensures
            all_id_errors("slot"@, self.slot_ids()).len() == 0,
            all_id_errors("port"@, self.port_ids()).len() == 0,
            gather(self.ports@.len() as int, self.port_errors()).len() == 0,
            gather(self.flows@.len() as int, self.flow_errors()).len() == 0,
            gather(self.implementations@.len() as int, self.implementation_errors()).len() == 0,
            gather(self.adapters@.len() as int, self.adapter_errors()).len() == 0,
            !looped(self.flow_links()),
    {
        assert(self.identity_errors().len() == 0);
        assert(self.loop_errors().len() == 0);
    }

    proof fn ids_distinct(self)
        requires
            all_id_errors("slot"@, self.slot_ids()).len() == 0,
            all_id_errors("port"@, self.port_ids()).len() == 0,
        ensures
            forall|i: int, j: int|
                0 <= i < j < self.slots@.len() ==> (#[trigger] self.slots@[i]).id@ != (
                #[trigger] self.slots@[j]).id@,
            forall|i: int, j: int|
                0 <= i < j < self.ports@.len() ==> (#[trigger] self.ports@[i]).id@ != (
                #[trigger] self.ports@[j]).id@,
    {
        let slots = self.slot_ids();
        let ports = self.port_ids();
        gather_empty(slots.len() as int, id_errors("slot"@, slots));
        gather_empty(ports.len() as int, id_errors("port"@, ports));
        assert forall|i: int, j: int| 0 <= i < j < self.slots@.len() implies (
        #[trigger] self.slots@[i]).id@ != (#[trigger] self.slots@[j]).id@ by {
            assert((id_errors("slot"@, slots))(j).len() == 0);
            assert(slots[i] == self.slots@[i].id@ && slots[j] == self.slots@[j].id@);
        }
        assert forall|i: int, j: int| 0 <= i < j < self.ports@.len() implies (
        #[trigger] self.ports@[i]).id@ != (#[trigger] self.ports@[j]).id@ by {
            assert((id_errors("port"@, ports))(j).len() == 0);
            assert(ports[i] == self.ports@[i].id@ && ports[j] == self.ports@[j].id@);
        }
    }

    proof fn flows_directed(self)
        requires
            gather(self.ports@.len() as int, self.port_errors()).len() == 0,
            gather(self.flows@.len() as int, self.flow_errors()).len() == 0,
        ensures
            forall|i: int|
                0 <= i < self.ports@.len() ==> self.slot_ids().contains(
                    (#[trigger] self.ports@[i]).slot@,
                ),
            forall|i: int|
                0 <= i < self.flows@.len() ==> (match (
                    self.port((#[trigger] self.flows@[i]).from@),
                    self.port(self.flows@[i].to@),
                ) {
                    (Some(a), Some(b)) => a.direction == Direction::Output && b.direction
                        == Direction::Input,
                    _ => false,
                }),
    {
        gather_empty(self.ports@.len() as int, self.port_errors());
        gather_empty(self.flows@.len() as int, self.flow_errors());
        assert forall|i: int| 0 <= i < self.ports@.len() implies self.slot_ids().contains(
            (#[trigger] self.ports@[i]).slot@,
        ) by {
            assert((self.port_errors())(i).len() == 0);
        }
        assert forall|i: int| 0 <= i < self.flows@.len() implies (match (
            self.port((#[trigger] self.flows@[i]).from@),
            self.port(self.flows@[i].to@),
        ) {
            (Some(a), Some(b)) => a.direction == Direction::Output && b.direction
                == Direction::Input,
            _ => false,
        }) by {
            assert((self.flow_errors())(i).len() == 0);
        }
    }

    proof fn adapters_direct(self)
        requires
            gather(self.adapters@.len() as int, self.adapter_errors()).len() == 0,
        ensures
            forall|i: int, j: int|
                0 <= i < self.adapters@.len() && 0 <= j < self.adapters@.len() ==> (
                #[trigger] self.adapters@[i]).to@ != (#[trigger] self.adapters@[j]).from@,
    {
        gather_empty(self.adapters@.len() as int, self.adapter_errors());
        assert forall|i: int, j: int|
            0 <= i < self.adapters@.len() && 0 <= j < self.adapters@.len() implies (
        #[trigger] self.adapters@[i]).to@ != (#[trigger] self.adapters@[j]).from@ by {
            assert((self.adapter_errors())(i).len() == 0);
            assert(self.adapter_port_errors(self.adapters@[i]).len() == 0);
            assert(self.adapter_sources()[j] == self.adapters@[j].from@);
        }
    }

    proof fn fused_is_allowed(self, i: int)
        requires
            0 <= i < self.implementations@.len(),
            self.implementations@[i].slots@.len() > 1,
            (self.implementation_errors())(i).len() == 0,
        ensures
            self.differential(self.implementations@[i]),
            forall|k: int|
                0 <= k < self.implementations@[i].slots@.len() ==> (match first_slot(
                    self.slots@,
                    #[trigger] self.implementations@[i].slots@[k]@,
                    0,
                ) {
                    Some(s) => s.allow_fusion,
                    None => false,
                }),
    {
        let m = self.implementations@[i];
        let n = m.slots@.len() as int;
        let missing = unknown_errors(
            texts(m.slots@),
            self.slot_ids(),
            "implementation '"@ + m.id@ + "': slot '"@,
            "' does not exist"@,
        );
        gather_empty(n, missing);
        gather_empty(n, self.fusion_errors(m));
        assert forall|k: int| 0 <= k < n implies (match first_slot(
            self.slots@,
            #[trigger] m.slots@[k]@,
            0,
        ) {
            Some(s) => s.allow_fusion,
            None => false,
        }) by {
            assert(missing(k).len() == 0);
            assert((self.fusion_errors(m))(k).len() == 0);
            assert(texts(m.slots@)[k] == m.slots@[k]@);
            let j = choose|j: int| 0 <= j < self.slot_ids().len() && self.slot_ids()[j] == m.slots@[k]@;
            first_slot_there(self.slots@, m.slots@[k]@, 0, j);
        }
    }
}

proof fn first_slot_there(slots: Seq<Slot>, id: Seq<char>, i: int, j: int)
    requires
        0 <= i <= j < slots.len(),
        slots[j].id@ == id,
    ensures
        first_slot(slots, id, i) is Some,
    decreases j - i,
{
    if slots[i].id@ != id {
        first_slot_there(slots, id, i + 1, j);
    }
}

// ── evolution ──────────────────────────────────────────────────────────────────────────

/// Whether two ports make the same contract.
pub open spec fn same_contract(a: Port, b: Port) -> bool {
    a.id@ == b.id@ && a.slot@ == b.slot@ && a.direction == b.direction && a.schema@ == b.schema@
        && a.version@ == b.version@ && a.compatibility == b.compatibility
}

impl Blueprint {
    /// Whether some implementation fills a slot.
    pub open spec fn filled(self, slot: Seq<char>) -> bool {
        exists|i: int|
            0 <= i < self.implementations@.len() && texts(
                (#[trigger] self.implementations@[i]).slots@,
            ).contains(slot)
    }

    /// Whether an adapter leads from a port straight to one whose slot is filled.
    pub open spec fn adapted(self, port: Seq<char>) -> bool {
        exists|i: int|
            0 <= i < self.adapters@.len() && (#[trigger] self.adapters@[i]).from@ == port && match self.port(
                self.adapters@[i].to@,
            ) {
                Some(q) => self.filled(q.slot@),
                None => false,
            }
    }

    /// Whether a port can be served: its own slot is filled, or it is adapted.
    pub open spec fn executable(self, p: Port) -> bool {
        self.filled(p.slot@) || self.adapted(p.id@)
    }

    /// What becomes wrong with a permanent port of `prior` when `self` takes over from it.
    pub open spec fn retention_errors(self, prior: Blueprint) -> spec_fn(int) -> Seq<Seq<char>> {
        |i: int|
            {
                let p = prior.ports@[i];
                if p.compatibility != CompatibilityPolicy::Permanent {
                    seq![]
                } else {
                    match self.port(p.id@) {
                        Some(q) => if !same_contract(p, q) {
                            seq!["permanent port '"@ + p.id@ + "' changed its contract"@]
                        } else if !self.executable(q) {
                            seq![
                                "permanent port '"@ + p.id@
                                    + "' has no executable native or direct-adapter path"@,
                            ]
                        } else {
                            seq![]
                        },
                        None => seq!["permanent port '"@ + p.id@ + "' is not retained"@],
                    }
                }
            }
    }

    /// What is wrong when `self` takes over from `prior`.
    pub open spec fn evolution_errors(self, prior: Blueprint) -> Seq<Seq<char>> {
        (if crate::text::text_opt(self.meta.supersedes) == Some(prior.meta.id@) {
            seq![]
        } else {
            seq!["blueprint '"@ + self.meta.id@ + "' must supersede '"@ + prior.meta.id@ + "'"@]
        }) + gather(prior.ports@.len() as int, self.retention_errors(prior))
    }

    fn is_filled(&self, slot: &str) -> (r: bool)
        ensures
            r == self.filled(slot@),
    {
        let mut i: usize = 0;
        while i < self.implementations.len()
            invariant
                i <= self.implementations.len(),
                forall|k: int|
                    0 <= k < i ==> !texts((#[trigger] self.implementations@[k]).slots@).contains(
                        slot@,
                    ),
            decreases self.implementations.len() - i,
        {
            if holds(&self.implementations[i].slots, slot) {
                return true;
            }
            i += 1;
        }
        false
    }

    fn is_adapted(&self, port: &str) -> (r: bool)
        ensures
            r == self.adapted(port@),
    {
        let mut i: usize = 0;
        while i < self.adapters.len()
            invariant
                i <= self.adapters.len(),
                forall|k: int|
                    0 <= k < i ==> !((#[trigger] self.adapters@[k]).from@ == port@ && match self.port(
                        self.adapters@[k].to@,
                    ) {
                        Some(q) => self.filled(q.slot@),
                        None => false,
                    }),
            decreases self.adapters.len() - i,
        {
            let a = &self.adapters[i];
            if same(a.from.as_str(), port) {
                match self.find_port(a.to.as_str()) {
                    Some(q) => if self.is_filled(q.slot.as_str()) {
                        return true;
                    },
                    None => {},
                }
            }
            i += 1;
        }
        false
    }

    /// What is wrong when `new` takes over from `prior`, sorted and without repetition: `new`
    /// must name `prior` as the shape that it supersedes, keep the whole contract of each of
    /// its permanent ports, and be able to serve each of them.
    pub fn validate_evolution(prior: &Blueprint, new: &Blueprint) -> (r: Vec<String>)
        ensures
            sorted_set(texts(r@), new.evolution_errors(*prior)),
    {
        let mut errors: Vec<String> = Vec::new();
        assert(texts(errors@) =~= Seq::<Seq<char>>::empty());
        let named = match &new.meta.supersedes {
            Some(s) => same(s.as_str(), prior.meta.id.as_str()),
            None => false,
        };
        if !named {
            put(
                &mut errors,
                cat5(
                    "blueprint '",
                    new.meta.id.as_str(),
                    "' must supersede '",
                    prior.meta.id.as_str(),
                    "'",
                ),
            );
        }
        let ghost base = texts(errors@);
        let mut i: usize = 0;
        while i < prior.ports.len()
            invariant
                i <= prior.ports.len(),
                texts(errors@) =~= base + gather(i as int, new.retention_errors(*prior)),
            decreases prior.ports.len() - i,
        {
            let p = &prior.ports[i];
            if p.compatibility == CompatibilityPolicy::Permanent {
                match new.find_port(p.id.as_str()) {
                    Some(q) => {
                        let kept = same(p.id.as_str(), q.id.as_str()) && same(
                            p.slot.as_str(),
                            q.slot.as_str(),
                        ) && p.direction == q.direction && same(
                            p.schema.as_str(),
                            q.schema.as_str(),
                        ) && same(p.version.as_str(), q.version.as_str()) && p.compatibility
                            == q.compatibility;
                        if !kept {
                            put(
                                &mut errors,
                                cat3(
                                    "permanent port '",
                                    p.id.as_str(),
                                    "' changed its contract",
                                ),
                            );
                        } else if !(new.is_filled(q.slot.as_str()) || new.is_adapted(
                            q.id.as_str(),
                        )) {
                            put(
                                &mut errors,
                                cat3(
                                    "permanent port '",
                                    p.id.as_str(),
                                    "' has no executable native or direct-adapter path",
                                ),
                            );
                        }
                    },
                    None => {
                        put(
                            &mut errors,
                            cat3("permanent port '", p.id.as_str(), "' is not retained"),
                        );
                    },
                }
            }
            i += 1;
        }
        sort_dedup(errors)
    }

    /// Whether `self` keeps the contract of each permanent port of `prior`.
    pub open spec fn retains(self, prior: Blueprint) -> bool {
        forall|i: int|
            0 <= i < prior.ports@.len() && (#[trigger] prior.ports@[i]).compatibility
                == CompatibilityPolicy::Permanent ==> exists|j: int|
                0 <= j < self.ports@.len() && same_contract(
                    prior.ports@[i],
                    #[trigger] self.ports@[j],
                )
    }

    /// An evolution without errors keeps the contract of every permanent port.
    pub proof fn clean_evolution_retains(self, prior: Blueprint, r: Seq<Seq<char>>)
        requires
            sorted_set(r, self.evolution_errors(prior)),
            r.len() == 0,
        ensures
            self.retains(prior),
            crate::text::text_opt(self.meta.supersedes) == Some(prior.meta.id@),
    {
        let e = self.evolution_errors(prior);
        if e.len() > 0 {
            assert(e.contains(e[0]));
            assert(r.contains(e[0]));
        }
        gather_empty(prior.ports@.len() as int, self.retention_errors(prior));
        assert forall|i: int|
            0 <= i < prior.ports@.len() && (#[trigger] prior.ports@[i]).compatibility
                == CompatibilityPolicy::Permanent implies exists|j: int|
            0 <= j < self.ports@.len() && same_contract(prior.ports@[i], #[trigger] self.ports@[j]) by {
            assert((self.retention_errors(prior))(i).len() == 0);
            let j = last_port_at(self.ports@, prior.ports@[i].id@, self.ports@.len() as int);
            assert(same_contract(prior.ports@[i], self.ports@[j]));
        }
    }

    /// Keeping permanent ports carries over from one evolution to the next, so that the newest
    /// blueprint keeps those of the oldest.
    pub proof fn retention_is_transitive(self, mid: Blueprint, prior: Blueprint)
        requires
            self.retains(mid),
            mid.retains(prior),
        ensures
            self.retains(prior),
    {
        assert forall|i: int|
            0 <= i < prior.ports@.len() && (#[trigger] prior.ports@[i]).compatibility
                == CompatibilityPolicy::Permanent implies exists|j: int|
            0 <= j < self.ports@.len() && same_contract(prior.ports@[i], #[trigger] self.ports@[j]) by {
            let j = choose|j: int|
                0 <= j < mid.ports@.len() && same_contract(prior.ports@[i], #[trigger] mid.ports@[j]);
            assert(mid.ports@[j].compatibility == CompatibilityPolicy::Permanent);
            let k = choose|k: int|
                0 <= k < self.ports@.len() && same_contract(mid.ports@[j], #[trigger] self.ports@[k]);
            assert(same_contract(prior.ports@[i], self.ports@[k]));
        }
    }
}

proof fn last_port_at(ports: Seq<Port>, id: Seq<char>, n: int) -> (j: int)
    requires
        last_port(ports, id, n) is Some,
        n <= ports.len(),
    ensures
        0 <= j < n,
        ports[j] == last_port(ports, id, n)->0,
    decreases n,
{
    if ports[n - 1].id@ == id {
        n - 1
    } else {
        last_port_at(ports, id, n - 1)
    }
}

} // verus!
