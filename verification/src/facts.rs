//! Facts about a repository: what they say and where they come from, snapshots of them that are
//! known by their contents, and bounded questions about what depends on what.
use vstd::prelude::*;

use crate::apart::{
    bool_apart, integer_apart, items_apart, list_apart, maybe_apart, regroup, rest_from,
    string_apart, string_begins, strip_same, strung, strung_from_front,
};
use crate::blueprint::{
    Blueprint, CompatibilityAdapter, Flow, Implementation, Lifecycle, Port, Slot, Witness,
    WitnessKind,
};
use crate::digest::{digest, digest_of};
use crate::json::{
    json_bool, json_list, json_maybe, json_string, json_strings, list, list_of_strings, maybe,
    quote, truth,
};
use crate::order::{
    arranged, before, before_asymmetric, before_from, before_irreflexive, canon, canonical,
    canonical_facts, canonical_fixed, canonical_mapped, char_rank, in_order, name_key, name_rank,
    name_rank_injective, named, row_of, row_unique, strictly_ascending, value_of, Keyed, Names,
    Ranked, Table,
};
use crate::scip::{CodeGraph, Sym, SymView};
use crate::shape::{flow_json, port_json, write_flow, write_port};
use crate::text::{
    cat2, cat3, cat5, cat7, chars, copy_opt, dec_int, decimal_i64, gather, holds, join, joined,
    lower, put, same, split_whitespace, text_opt, texts, to_lower, words,
};

verus! {

// ── facts ──────────────────────────────────────────────────────────────────────────────

/// What a fact says of its subject.
#[derive(Debug, Clone, PartialEq, Eq, PartialOrd, Ord)]
pub enum FactObject {
    Entity(String),
    Text(String),
    Integer(i64),
    Boolean(bool),
}

/// Where a fact comes from.
#[derive(Debug, Clone, PartialEq, Eq, PartialOrd, Ord)]
pub struct SourceRef {
    pub adapter: String,
    pub locator: String,
    pub digest: String,
}

/// A fact.
#[derive(Debug)]
pub struct Fact {
    pub subject: String,
    pub predicate: String,
    pub object: FactObject,
    pub attributes: Table<String, false>,
    pub source: SourceRef,
}

/// A set of facts, known by its contents.
#[derive(Debug, Clone, PartialEq, Eq)]
pub struct Snapshot {
    pub id: String,
    pub parent_id: Option<String>,
    pub fact_count: usize,
}

/// What a fact says of its subject.
pub enum ObjectView {
    Entity(Seq<char>),
    Text(Seq<char>),
    Integer(i64),
    Boolean(bool),
}

/// A fact.
#[verifier::ext_equal]
pub struct FactView {
    pub subject: Seq<char>,
    pub predicate: Seq<char>,
    pub object: ObjectView,
    pub attributes: Seq<(Seq<char>, Seq<char>)>,
    pub adapter: Seq<char>,
    pub locator: Seq<char>,
    pub digest: Seq<char>,
}

impl View for FactObject {
    type V = ObjectView;

    open spec fn view(&self) -> ObjectView {
        match *self {
            FactObject::Entity(s) => ObjectView::Entity(s@),
            FactObject::Text(s) => ObjectView::Text(s@),
            FactObject::Integer(n) => ObjectView::Integer(n),
            FactObject::Boolean(b) => ObjectView::Boolean(b),
        }
    }
}

/// The rows of a table of texts.
pub open spec fn attribute_views(rows: Seq<(Seq<char>, String)>) -> Seq<(Seq<char>, Seq<char>)> {
    rows.map_values(|r: (Seq<char>, String)| (r.0, r.1@))
}

impl View for Fact {
    type V = FactView;

    open spec fn view(&self) -> FactView {
        FactView {
            subject: self.subject@,
            predicate: self.predicate@,
            object: self.object@,
            attributes: attribute_views(self.attributes@),
            adapter: self.source.adapter@,
            locator: self.source.locator@,
            digest: self.source.digest@,
        }
    }
}

/// The views of a list of facts.
pub open spec fn fact_views(v: Seq<Fact>) -> Seq<FactView> {
    v.map_values(|f: Fact| f@)
}

// ── the order of facts ─────────────────────────────────────────────────────────────────

/// The rank of a text that more follows.
pub open spec fn text_rank(s: Seq<char>) -> Seq<i64> {
    name_rank(false, s).push((-1) as i64)
}

/// The rank of what a fact says: by its kind, then by its value.
pub open spec fn object_rank(o: ObjectView) -> Seq<i64> {
    match o {
        ObjectView::Entity(s) => seq![0i64] + text_rank(s),
        ObjectView::Text(s) => seq![1i64] + text_rank(s),
        ObjectView::Integer(n) => seq![2i64, n],
        ObjectView::Boolean(b) => seq![
            3i64,
            if b {
                1i64
            } else {
                0i64
            },
        ],
    }
}

/// The rank of an attribute by position.
pub open spec fn attribute_rank(rows: Seq<(Seq<char>, Seq<char>)>) -> spec_fn(int) -> Seq<i64> {
    |i: int| seq![1i64] + text_rank(rows[i].0) + text_rank(rows[i].1)
}

/// The rank of attributes: one after the other, by name and by value.
pub open spec fn attributes_rank(rows: Seq<(Seq<char>, Seq<char>)>) -> Seq<i64> {
    gather(rows.len() as int, attribute_rank(rows)) + seq![0i64]
}

/// The rank of a fact: by subject, predicate, object, attributes and source.
pub open spec fn fact_rank(f: FactView) -> Seq<i64> {
    text_rank(f.subject) + text_rank(f.predicate) + object_rank(f.object) + attributes_rank(
        f.attributes,
    ) + text_rank(f.adapter) + text_rank(f.locator) + text_rank(f.digest)
}

impl Ranked for FactView {
    open spec fn rank(&self) -> Seq<i64> {
        fact_rank(*self)
    }
}

impl Ranked for Fact {
    open spec fn rank(&self) -> Seq<i64> {
        fact_rank(self@)
    }
}

fn add_text_key(k: &mut Vec<i64>, s: &str)
    ensures
        final(k)@ == old(k)@ + text_rank(s@),
{
    let ghost before = k@;
    let mut n = name_key(false, s);
    n.push(-1);
    k.append(&mut n);
}

fn add_object_key(k: &mut Vec<i64>, o: &FactObject)
    ensures
        final(k)@ == old(k)@ + object_rank(o@),
{
    let ghost before = k@;
    match o {
        FactObject::Entity(s) => {
            k.push(0);
            add_text_key(k, s.as_str());
        },
        FactObject::Text(s) => {
            k.push(1);
            add_text_key(k, s.as_str());
        },
        FactObject::Integer(n) => {
            k.push(2);
            k.push(*n);
        },
        FactObject::Boolean(b) => {
            k.push(3);
            if *b {
                k.push(1);
            } else {
                k.push(0);
            }
        },
    }
    assert(k@ =~= before + object_rank(o@));
}

fn add_attributes_key(k: &mut Vec<i64>, t: &Table<String, false>)
    ensures
        final(k)@ == old(k)@ + attributes_rank(attribute_views(t@)),
{
    let ghost before = k@;
    let ghost rows = attribute_views(t@);
    let total = t.len();
    let mut i: usize = 0;
    while i < total
        invariant
            i <= total == t@.len(),
            rows == attribute_views(t@),
            k@ =~= before + gather(i as int, attribute_rank(rows)),
        decreases total - i,
    {
        assert(rows[i as int] == (t@[i as int].0, t@[i as int].1@));
        let ghost now = k@;
        k.push(1);
        add_text_key(k, t.name(i).as_str());
        add_text_key(k, t.value(i).as_str());
        assert(k@ =~= now + (attribute_rank(rows))(i as int));
        i += 1;
    }
    k.push(0);
    assert(k@ =~= before + attributes_rank(rows));
}

impl Keyed for Fact {
    fn key(&self) -> (r: Vec<i64>) {
        let mut k: Vec<i64> = Vec::new();
        add_text_key(&mut k, self.subject.as_str());
        add_text_key(&mut k, self.predicate.as_str());
        add_object_key(&mut k, &self.object);
        add_attributes_key(&mut k, &self.attributes);
        add_text_key(&mut k, self.source.adapter.as_str());
        add_text_key(&mut k, self.source.locator.as_str());
        add_text_key(&mut k, self.source.digest.as_str());
        assert(k@ =~= fact_rank(self@));
        k
    }
}

/// A text is told from what follows its rank.
proof fn text_rank_splits(a: Seq<char>, x: Seq<i64>, b: Seq<char>, y: Seq<i64>)
    requires
        text_rank(a) + x == text_rank(b) + y,
    ensures
        a == b,
        x == y,
{
    let s = text_rank(a) + x;
    let t = text_rank(b) + y;
    let m = a.len() as int;
    let n = b.len() as int;
    assert(s[m] == -1);
    assert(t[n] == -1);
    if m < n {
        assert(t[m] == name_rank(false, b)[m]);
        assert(false);
    }
    if n < m {
        assert(s[n] == name_rank(false, a)[n]);
        assert(false);
    }
    assert(name_rank(false, a) =~= name_rank(false, b)) by {
        assert forall|i: int| 0 <= i < m implies name_rank(false, a)[i] == name_rank(false, b)[i] by {
            assert(s[i] == name_rank(false, a)[i]);
            assert(t[i] == name_rank(false, b)[i]);
        }
    }
    name_rank_injective(false, a, b);
    assert(x =~= s.skip(m + 1));
    assert(y =~= t.skip(n + 1));
}

proof fn object_rank_splits(a: ObjectView, x: Seq<i64>, b: ObjectView, y: Seq<i64>)
    requires
        object_rank(a) + x == object_rank(b) + y,
    ensures
        a == b,
        x == y,
{
    let s = object_rank(a) + x;
    let t = object_rank(b) + y;
    assert(s[0] == object_rank(a)[0]);
    assert(t[0] == object_rank(b)[0]);
    match (a, b) {
        (ObjectView::Entity(p), ObjectView::Entity(q)) => {
            assert(s.skip(1) =~= text_rank(p) + x);
            assert(t.skip(1) =~= text_rank(q) + y);
            text_rank_splits(p, x, q, y);
        },
        (ObjectView::Text(p), ObjectView::Text(q)) => {
            assert(s.skip(1) =~= text_rank(p) + x);
            assert(t.skip(1) =~= text_rank(q) + y);
            text_rank_splits(p, x, q, y);
        },
        (ObjectView::Integer(_), ObjectView::Integer(_)) => {
            assert(s[1] == object_rank(a)[1]);
            assert(t[1] == object_rank(b)[1]);
            assert(x =~= s.skip(2));
            assert(y =~= t.skip(2));
        },
        (ObjectView::Boolean(_), ObjectView::Boolean(_)) => {
            assert(s[1] == object_rank(a)[1]);
            assert(t[1] == object_rank(b)[1]);
            assert(x =~= s.skip(2));
            assert(y =~= t.skip(2));
        },
        _ => {},
    }
}

proof fn attributes_front(rows: Seq<(Seq<char>, Seq<char>)>, n: int)
    requires
        1 <= n <= rows.len(),
    ensures
        gather(n, attribute_rank(rows)) == (attribute_rank(rows))(0) + gather(
            n - 1,
            attribute_rank(rows.skip(1)),
        ),
    decreases n,
{
    if n == 1 {
        reveal_with_fuel(gather, 2);
        assert(gather(1, attribute_rank(rows)) =~= (attribute_rank(rows))(0) + gather(
            0,
            attribute_rank(rows.skip(1)),
        ));
    } else {
        attributes_front(rows, n - 1);
        assert(rows.skip(1)[n - 2] == rows[n - 1]);
        assert((attribute_rank(rows.skip(1)))(n - 2) == (attribute_rank(rows))(n - 1));
        assert(gather(n, attribute_rank(rows)) =~= (attribute_rank(rows))(0) + gather(
            n - 1,
            attribute_rank(rows.skip(1)),
        ));
    }
}

proof fn attributes_rank_splits(
    a: Seq<(Seq<char>, Seq<char>)>,
    x: Seq<i64>,
    b: Seq<(Seq<char>, Seq<char>)>,
    y: Seq<i64>,
)
    requires
        attributes_rank(a) + x == attributes_rank(b) + y,
    ensures
        a == b,
        x == y,
    decreases a.len(),
{
    let s = attributes_rank(a) + x;
    let t = attributes_rank(b) + y;
    if a.len() > 0 {
        attributes_front(a, a.len() as int);
        assert(s =~= seq![1i64] + (text_rank(a[0].0) + (text_rank(a[0].1) + (attributes_rank(
            a.skip(1),
        ) + x))));
    } else {
        assert(gather(0, attribute_rank(a)) =~= Seq::<i64>::empty());
        assert(s =~= seq![0i64] + x);
    }
    if b.len() > 0 {
        attributes_front(b, b.len() as int);
        assert(t =~= seq![1i64] + (text_rank(b[0].0) + (text_rank(b[0].1) + (attributes_rank(
            b.skip(1),
        ) + y))));
    } else {
        assert(gather(0, attribute_rank(b)) =~= Seq::<i64>::empty());
        assert(t =~= seq![0i64] + y);
    }
    assert(s[0] == t[0]);
    if a.len() > 0 {
        let p = text_rank(a[0].1) + (attributes_rank(a.skip(1)) + x);
        let q = text_rank(b[0].1) + (attributes_rank(b.skip(1)) + y);
        assert(s.skip(1) =~= text_rank(a[0].0) + p);
        assert(t.skip(1) =~= text_rank(b[0].0) + q);
        text_rank_splits(a[0].0, p, b[0].0, q);
        text_rank_splits(
            a[0].1,
            attributes_rank(a.skip(1)) + x,
            b[0].1,
            attributes_rank(b.skip(1)) + y,
        );
        attributes_rank_splits(a.skip(1), x, b.skip(1), y);
        assert(a =~= seq![a[0]] + a.skip(1));
        assert(b =~= seq![b[0]] + b.skip(1));
    } else {
        assert(a =~= b);
        assert(x =~= s.skip(1));
        assert(y =~= t.skip(1));
    }
}

/// Seven ranks one after the other, taken from the front.
proof fn ranks_regroup(
    a: Seq<i64>,
    b: Seq<i64>,
    c: Seq<i64>,
    d: Seq<i64>,
    e: Seq<i64>,
    f: Seq<i64>,
    g: Seq<i64>,
)
    ensures
        a + b + c + d + e + f + g == a + (b + (c + (d + (e + (f + (g + Seq::<i64>::empty())))))),
{
    assert(a + b + c + d + e + f + g =~= a + (b + (c + (d + (e + (f + (g + Seq::<
        i64,
    >::empty())))))));
}

/// Sources are told from what follows their rank.
proof fn source_rank_splits(a: FactView, b: FactView)
    requires
        text_rank(a.adapter) + (text_rank(a.locator) + (text_rank(a.digest) + Seq::<i64>::empty()))
            == text_rank(b.adapter) + (text_rank(b.locator) + (text_rank(b.digest) + Seq::<
            i64,
        >::empty())),
    ensures
        a.adapter == b.adapter,
        a.locator == b.locator,
        a.digest == b.digest,
{
    let e = Seq::<i64>::empty();
    let x5 = text_rank(a.digest) + e;
    let y5 = text_rank(b.digest) + e;
    text_rank_splits(a.adapter, text_rank(a.locator) + x5, b.adapter, text_rank(b.locator) + y5);
    text_rank_splits(a.locator, x5, b.locator, y5);
    text_rank_splits(a.digest, e, b.digest, e);
}

proof fn fact_rank_regroups(f: FactView)
    ensures
        fact_rank(f) == text_rank(f.subject) + (text_rank(f.predicate) + (object_rank(f.object) + (
        attributes_rank(f.attributes) + (text_rank(f.adapter) + (text_rank(f.locator) + (text_rank(
            f.digest,
        ) + Seq::<i64>::empty())))))),
{
    ranks_regroup(
        text_rank(f.subject),
        text_rank(f.predicate),
        object_rank(f.object),
        attributes_rank(f.attributes),
        text_rank(f.adapter),
        text_rank(f.locator),
        text_rank(f.digest),
    );
}

/// Facts that rank the same are the same.
pub proof fn fact_rank_injective(a: FactView, b: FactView)
    requires
        fact_rank(a) == fact_rank(b),
    ensures
        a == b,
{
    let e = Seq::<i64>::empty();
    let x5 = text_rank(a.digest) + e;
    let y5 = text_rank(b.digest) + e;
    let x4 = text_rank(a.locator) + x5;
    let y4 = text_rank(b.locator) + y5;
    let x3 = text_rank(a.adapter) + x4;
    let y3 = text_rank(b.adapter) + y4;
    let x2 = attributes_rank(a.attributes) + x3;
    let y2 = attributes_rank(b.attributes) + y3;
    let x1 = object_rank(a.object) + x2;
    let y1 = object_rank(b.object) + y2;
    let x0 = text_rank(a.predicate) + x1;
    let y0 = text_rank(b.predicate) + y1;
    fact_rank_regroups(a);
    fact_rank_regroups(b);
    text_rank_splits(a.subject, x0, b.subject, y0);
    text_rank_splits(a.predicate, x1, b.predicate, y1);
    object_rank_splits(a.object, x2, b.object, y2);
    attributes_rank_splits(a.attributes, x3, b.attributes, y3);
    source_rank_splits(a, b);
}

/// The canonical form of facts holds exactly the facts, each once.
pub proof fn canonical_holds_facts(fs: Seq<FactView>, f: FactView)
    ensures
        canonical(fs).contains(f) <==> fs.contains(f),
        strictly_ascending(canonical(fs)),
{
    canonical_facts(fs);
    if fs.contains(f) {
        let c = canonical(fs);
        let i = choose|i: int| 0 <= i < c.len() && #[trigger] c[i].rank() == f.rank();
        fact_rank_injective(c[i], f);
    }
}

impl FactObject {
    /// A copy.
    pub fn copy(&self) -> (r: FactObject)
        ensures
            r == *self,
    {
        match self {
            FactObject::Entity(s) => FactObject::Entity(s.clone()),
            FactObject::Text(s) => FactObject::Text(s.clone()),
            FactObject::Integer(n) => FactObject::Integer(*n),
            FactObject::Boolean(b) => FactObject::Boolean(*b),
        }
    }
}

impl SourceRef {
    /// A copy.
    pub fn copy(&self) -> (r: SourceRef)
        ensures
            r == *self,
    {
        SourceRef {
            adapter: self.adapter.clone(),
            locator: self.locator.clone(),
            digest: self.digest.clone(),
        }
    }
}

/// Two tables in order that give every name the same text have the same rows.
proof fn rows_unique(a: Seq<(Seq<char>, String)>, b: Seq<(Seq<char>, String)>)
    requires
        in_order(false, a),
        in_order(false, b),
        forall|k: Seq<char>| #[trigger] named(a, k) <==> named(b, k),
        forall|k: Seq<char>| #[trigger] named(a, k) ==> value_of(a, k)->0@ == value_of(b, k)->0@,
    ensures
        attribute_views(a) == attribute_views(b),
    decreases a.len(),
{
    if a.len() == 0 {
        if b.len() > 0 {
            assert(named(b, b[0].0));
            assert(named(a, b[0].0));
        }
        assert(attribute_views(a) =~= attribute_views(b));
    } else {
        assert(named(a, a[0].0));
        assert(named(b, a[0].0));
        let x = a.last();
        let y = b.last();
        assert(a[a.len() - 1].0 == x.0 && b[b.len() - 1].0 == y.0);
        assert(named(a, x.0) && named(b, y.0));
        assert(named(b, x.0) && named(a, y.0));
        let i = choose|i: int| 0 <= i < b.len() && #[trigger] b[i].0 == x.0;
        let j = choose|j: int| 0 <= j < a.len() && #[trigger] a[j].0 == y.0;
        if i < b.len() - 1 {
            assert(before(name_rank(false, b[i].0), name_rank(false, b[b.len() - 1].0)));
            if j < a.len() - 1 {
                assert(before(name_rank(false, a[j].0), name_rank(false, a[a.len() - 1].0)));
                before_asymmetric(name_rank(false, x.0), name_rank(false, y.0));
            } else {
                before_irreflexive(name_rank(false, x.0));
            }
        }
        assert(x.0 == y.0);
        row_unique(false, a, a.len() - 1);
        row_unique(false, b, b.len() - 1);
        assert(x.1@ == y.1@);
        let c = a.drop_last();
        let d = b.drop_last();
        rows_without_last(a);
        rows_without_last(b);
        assert forall|k: Seq<char>| #[trigger] named(c, k) <==> named(d, k) by {
            assert(named(a, k) <==> named(b, k));
        }
        assert forall|k: Seq<char>| #[trigger] named(c, k) implies value_of(c, k)->0@ == value_of(
            d,
            k,
        )->0@ by {
            assert(named(a, k));
            assert(named(d, k));
        }
        rows_unique(c, d);
        assert(attribute_views(a) =~= attribute_views(c).push((x.0, x.1@)));
        assert(attribute_views(b) =~= attribute_views(d).push((y.0, y.1@)));
    }
}

proof fn rows_without_last(a: Seq<(Seq<char>, String)>)
    requires
        in_order(false, a),
        a.len() > 0,
    ensures
        in_order(false, a.drop_last()),
        forall|k: Seq<char>| #[trigger]
            named(a.drop_last(), k) <==> named(a, k) && k != a.last().0,
        forall|k: Seq<char>| #[trigger]
            named(a.drop_last(), k) ==> value_of(a.drop_last(), k) == value_of(a, k),
{
    let c = a.drop_last();
    let last = a[a.len() - 1];
    assert forall|i: int, j: int| 0 <= i < j < c.len() implies before(
        name_rank(false, #[trigger] c[i].0),
        name_rank(false, #[trigger] c[j].0),
    ) by {
        assert(c[i].0 == a[i].0 && c[j].0 == a[j].0);
    }
    assert forall|k: Seq<char>| #[trigger] named(c, k) implies named(a, k) && k != a.last().0
        && value_of(c, k) == value_of(a, k) by {
        let i = choose|i: int| 0 <= i < c.len() && #[trigger] c[i].0 == k;
        assert(a[i].0 == k);
        row_unique(false, a, i);
        row_unique(false, c, i);
        assert(before(name_rank(false, a[i].0), name_rank(false, a[a.len() - 1].0)));
        before_irreflexive(name_rank(false, k));
    }
    assert forall|k: Seq<char>| named(a, k) && k != a.last().0 implies #[trigger] named(c, k) by {
        let i = choose|i: int| 0 <= i < a.len() && #[trigger] a[i].0 == k;
        assert(c[i].0 == k);
    }
}

fn copy_attributes(t: &Table<String, false>) -> (r: Table<String, false>)
    ensures
        attribute_views(r@) == attribute_views(t@),
{
    let r = crate::config::copy_facets(t);
    let _a = t.len();
    let _b = r.len();
    proof {
        let m = crate::config::facet_map(t@);
        let n = crate::config::facet_map(r@);
        assert forall|k: Seq<char>| #[trigger] named(r@, k) <==> named(t@, k) by {
            assert(m.dom().contains(k) <==> n.dom().contains(k));
        }
        assert forall|k: Seq<char>| #[trigger] named(r@, k) implies value_of(r@, k)->0@ == value_of(
            t@,
            k,
        )->0@ by {
            assert(named(t@, k));
            assert(m.dom().contains(k));
            assert(m[k] == n[k]);
        }
        rows_unique(r@, t@);
    }
    r
}

impl Fact {
    /// A copy that says the same.
    pub fn copy(&self) -> (r: Fact)
        ensures
            r@ == self@,
    {
        Fact {
            subject: self.subject.clone(),
            predicate: self.predicate.clone(),
            object: self.object.copy(),
            attributes: copy_attributes(&self.attributes),
            source: self.source.copy(),
        }
    }
}

/// Copies of facts, in order and each once.
pub fn canonical_list(facts: &Vec<Fact>) -> (r: Vec<Fact>)
    ensures
        fact_views(r@) == canonical(fact_views(facts@)),
{
    let mut out: Vec<Fact> = Vec::new();
    let mut i: usize = 0;
    while i < facts.len()
        invariant
            i <= facts.len(),
            out.len() == i,
            forall|k: int| 0 <= k < i ==> (#[trigger] out@[k])@ == facts@[k]@,
        decreases facts.len() - i,
    {
        out.push(facts[i].copy());
        i += 1;
    }
    proof {
        assert(fact_views(out@) =~= fact_views(facts@));
        canonical_mapped(out@, |f: Fact| f@);
    }
    canon(out)
}

fn sorted_facts(facts: Vec<Fact>) -> (r: Vec<Fact>)
    ensures
        fact_views(r@) == canonical(fact_views(facts@)),
{
    proof {
        canonical_mapped(facts@, |f: Fact| f@);
    }
    canon(facts)
}

// ── snapshots ──────────────────────────────────────────────────────────────────────────

/// What a fact says, in JSON.
pub open spec fn object_json(o: ObjectView) -> Seq<char> {
    match o {
        ObjectView::Entity(s) => "{\"kind\":\"entity\",\"value\":"@ + json_string(s) + "}"@,
        ObjectView::Text(s) => "{\"kind\":\"text\",\"value\":"@ + json_string(s) + "}"@,
        ObjectView::Integer(n) => "{\"kind\":\"integer\",\"value\":"@ + dec_int(n as int) + "}"@,
        ObjectView::Boolean(b) => "{\"kind\":\"boolean\",\"value\":"@ + json_bool(b) + "}"@,
    }
}

/// An attribute in JSON.
pub open spec fn attribute_json(r: (Seq<char>, Seq<char>)) -> Seq<char> {
    json_string(r.0) + ":"@ + json_string(r.1)
}

/// A fact in JSON.
pub open spec fn fact_json(f: FactView) -> Seq<char> {
    "{\"subject\":"@ + json_string(f.subject) + ",\"predicate\":"@ + json_string(f.predicate)
        + ",\"object\":"@ + object_json(f.object) + ",\"attributes\":{"@ + joined(
        f.attributes.map_values(|r: (Seq<char>, Seq<char>)| attribute_json(r)),
        ","@,
    ) + "},\"source\":{\"adapter\":"@ + json_string(f.adapter) + ",\"locator\":"@ + json_string(
        f.locator,
    ) + ",\"digest\":"@ + json_string(f.digest) + "}}"@
}

/// The contents by which a snapshot is known: its parent, and its facts in order and each once.
pub open spec fn snapshot_json(parent: Option<Seq<char>>, fs: Seq<FactView>) -> Seq<char> {
    "["@ + json_maybe(parent) + ","@ + json_list(
        canonical(fs).map_values(|f: FactView| fact_json(f)),
    ) + "]"@
}

fn write_object(o: &FactObject) -> (r: String)
    ensures
        r@ == object_json(o@),
{
    match o {
        FactObject::Entity(s) => cat3(
            "{\"kind\":\"entity\",\"value\":",
            quote(s.as_str()).as_str(),
            "}",
        ),
        FactObject::Text(s) => cat3(
            "{\"kind\":\"text\",\"value\":",
            quote(s.as_str()).as_str(),
            "}",
        ),
        FactObject::Integer(n) => cat3(
            "{\"kind\":\"integer\",\"value\":",
            decimal_i64(*n).as_str(),
            "}",
        ),
        FactObject::Boolean(b) => cat3(
            "{\"kind\":\"boolean\",\"value\":",
            truth(*b).as_str(),
            "}",
        ),
    }
}

fn write_attributes(t: &Table<String, false>) -> (r: String)
    ensures
        r@ == joined(
            attribute_views(t@).map_values(|r: (Seq<char>, Seq<char>)| attribute_json(r)),
            ","@,
        ),
{
    let ghost goal = attribute_views(t@).map_values(
        |r: (Seq<char>, Seq<char>)| attribute_json(r),
    );
    let mut out: Vec<String> = Vec::new();
    let total = t.len();
    let mut i: usize = 0;
    while i < total
        invariant
            i <= total == t@.len(),
            goal == attribute_views(t@).map_values(
                |r: (Seq<char>, Seq<char>)| attribute_json(r),
            ),
            texts(out@) =~= goal.take(i as int),
        decreases total - i,
    {
        put(
            &mut out,
            cat3(
                quote(t.name(i).as_str()).as_str(),
                ":",
                quote(t.value(i).as_str()).as_str(),
            ),
        );
        assert(goal.take(i + 1) =~= goal.take(i as int).push(goal[i as int]));
        i += 1;
    }
    assert(goal.take(goal.len() as int) =~= goal);
    join(&out, ",")
}

/// Writes a fact in JSON.
pub fn write_fact(f: &Fact) -> (r: String)
    ensures
        r@ == fact_json(f@),
{
    let mut r = cat7(
        "{\"subject\":",
        quote(f.subject.as_str()).as_str(),
        ",\"predicate\":",
        quote(f.predicate.as_str()).as_str(),
        ",\"object\":",
        write_object(&f.object).as_str(),
        ",\"attributes\":{",
    );
    r.append(write_attributes(&f.attributes).as_str());
    r.append("},\"source\":{\"adapter\":");
    r.append(quote(f.source.adapter.as_str()).as_str());
    r.append(",\"locator\":");
    r.append(quote(f.source.locator.as_str()).as_str());
    r.append(",\"digest\":");
    r.append(quote(f.source.digest.as_str()).as_str());
    r.append("}}");
    r
}

fn write_facts(fs: &Vec<Fact>) -> (r: String)
    ensures
        r@ == json_list(fact_views(fs@).map_values(|f: FactView| fact_json(f))),
{
    let ghost goal = fact_views(fs@).map_values(|f: FactView| fact_json(f));
    let mut out: Vec<String> = Vec::new();
    let mut i: usize = 0;
    while i < fs.len()
        invariant
            i <= fs.len(),
            goal == fact_views(fs@).map_values(|f: FactView| fact_json(f)),
            texts(out@) =~= goal.take(i as int),
        decreases fs.len() - i,
    {
        put(&mut out, write_fact(&fs[i]));
        assert(goal.take(i + 1) =~= goal.take(i as int).push(goal[i as int]));
        i += 1;
    }
    assert(goal.take(goal.len() as int) =~= goal);
    list(&out)
}

impl Snapshot {
    /// Whether this is the snapshot of facts over a parent: its id is the digest of both, and it
    /// counts the facts of the canonical list.
    #[verifier::opaque]
    pub open spec fn snaps(self, parent: Option<Seq<char>>, fs: Seq<FactView>) -> bool {
        &&& self.id@ == digest(snapshot_json(parent, fs))
        &&& text_opt(self.parent_id) == parent
        &&& self.fact_count == canonical(fs).len()
    }
}

/// The snapshot of facts: their canonical list, and the id that its contents and its parent
/// give it.
pub fn make_snapshot(parent: &Option<String>, facts: &Vec<Fact>) -> (r: (Snapshot, Vec<Fact>))
    ensures
        fact_views(r.1@) == canonical(fact_views(facts@)),
        r.0.id@ == digest(snapshot_json(text_opt(*parent), fact_views(facts@))),
        r.0.parent_id == *parent,
        r.0.fact_count == canonical(fact_views(facts@)).len(),
{
    let all = canonical_list(facts);
    assert(fact_views(all@).len() == all@.len());
    let text = cat5("[", maybe(parent).as_str(), ",", write_facts(&all).as_str(), "]");
    let snapshot = Snapshot {
        id: digest_of(text.as_str()),
        parent_id: copy_opt(parent),
        fact_count: all.len(),
    };
    (snapshot, all)
}

/// Facts in whatever order and however often given make the same snapshot.
pub proof fn snapshot_ignores_order(parent: Option<Seq<char>>, a: Seq<FactView>, b: Seq<FactView>)
    requires
        forall|f: FactView| #[trigger] a.contains(f) <==> b.contains(f),
    ensures
        snapshot_json(parent, a) == snapshot_json(parent, b),
{
    canonical_facts(a);
    canonical_facts(b);
    assert forall|f: FactView| #[trigger] canonical(a).contains(f) <==> canonical(b).contains(f) by {
        canonical_holds_facts(a, f);
        canonical_holds_facts(b, f);
    }
    facts_unique(canonical(a), canonical(b));
}

proof fn facts_unique(s: Seq<FactView>, t: Seq<FactView>)
    requires
        strictly_ascending(s),
        strictly_ascending(t),
        forall|x: FactView| #[trigger] s.contains(x) <==> t.contains(x),
    ensures
        s == t,
    decreases s.len(),
{
    if s.len() == 0 {
        if t.len() > 0 {
            assert(t.contains(t[0]));
            assert(s.contains(t[0]));
        }
        assert(s =~= t);
    } else {
        assert(s.contains(s[0]));
        assert(t.contains(s[0]));
        let x = s.last();
        let y = t.last();
        assert(s.contains(x) && t.contains(y));
        assert(t.contains(x) && s.contains(y));
        let i = choose|i: int| 0 <= i < t.len() && t[i] == x;
        let j = choose|j: int| 0 <= j < s.len() && s[j] == y;
        if i < t.len() - 1 {
            assert(before(t[i].rank(), t[t.len() - 1].rank()));
            if j < s.len() - 1 {
                assert(before(s[j].rank(), s[s.len() - 1].rank()));
                before_asymmetric(x.rank(), y.rank());
            } else {
                before_irreflexive(x.rank());
            }
        }
        assert(x == y);
        let a = s.drop_last();
        let b = t.drop_last();
        assert forall|p: int, q: int| 0 <= p < q < a.len() implies before(
            #[trigger] a[p].rank(),
            #[trigger] a[q].rank(),
        ) by {
            assert(a[p] == s[p] && a[q] == s[q]);
        }
        assert forall|p: int, q: int| 0 <= p < q < b.len() implies before(
            #[trigger] b[p].rank(),
            #[trigger] b[q].rank(),
        ) by {
            assert(b[p] == t[p] && b[q] == t[q]);
        }
        assert forall|z: FactView| #[trigger] a.contains(z) <==> b.contains(z) by {
            facts_without_last(s, z);
            facts_without_last(t, z);
        }
        facts_unique(a, b);
        assert(s =~= a.push(x));
        assert(t =~= b.push(x));
    }
}

proof fn facts_without_last(s: Seq<FactView>, z: FactView)
    requires
        strictly_ascending(s),
        s.len() > 0,
    ensures
        s.drop_last().contains(z) <==> s.contains(z) && z != s.last(),
{
    let a = s.drop_last();
    if a.contains(z) {
        let i = choose|i: int| 0 <= i < a.len() && a[i] == z;
        assert(s[i] == z);
        assert(before(s[i].rank(), s[s.len() - 1].rank()));
        before_irreflexive(z.rank());
    }
    if s.contains(z) && z != s.last() {
        let i = choose|i: int| 0 <= i < s.len() && s[i] == z;
        assert(a[i] == z);
    }
}

/// Whether a name may be given to a snapshot: not empty, and ASCII letters and digits, dots,
/// hyphens and underscores alone.
pub fn is_ref_name(name: &str) -> (r: bool)
    ensures
        r == crate::blueprint::safe_id(name@),
{
    crate::blueprint::is_safe_id(name)
}

/// The rows that a store keeps of facts: each fact as it is written, in order.
pub open spec fn fact_rows(fs: Seq<FactView>) -> Seq<Seq<char>> {
    fs.map_values(|f: FactView| fact_json(f))
}

/// The rows to add for a snapshot from its canonical facts. A snapshot that is known stays as it is:
/// nothing is added.
pub fn rows_to_add(known: bool, facts: &Vec<Fact>) -> (r: Vec<String>)
    ensures
        texts(r@) == if known {
            seq![]
        } else {
            fact_rows(fact_views(facts@))
        },
{
    let mut out: Vec<String> = Vec::new();
    assert(texts(out@) =~= Seq::<Seq<char>>::empty());
    if known {
        return out;
    }
    let ghost goal = fact_rows(fact_views(facts@));
    let mut i: usize = 0;
    while i < facts.len()
        invariant
            i <= facts.len(),
            goal == fact_rows(fact_views(facts@)),
            texts(out@) =~= goal.take(i as int),
        decreases facts.len() - i,
    {
        put(&mut out, write_fact(&facts[i]));
        assert(goal.take(i + 1) =~= goal.take(i as int).push(goal[i as int]));
        i += 1;
    }
    assert(goal.take(goal.len() as int) =~= goal);
    out
}

/// The rows of a store by snapshot, with those of one more.
pub open spec fn with_snapshot(
    store: Map<Seq<char>, Seq<Seq<char>>>,
    parent: Option<Seq<char>>,
    fs: Seq<FactView>,
) -> Map<Seq<char>, Seq<Seq<char>>> {
    let id = digest(snapshot_json(parent, fs));
    if store.dom().contains(id) {
        store
    } else {
        store.insert(id, fact_rows(canonical(fs)))
    }
}

/// History is never rewritten: putting a snapshot into a store leaves the rows of every other as they
/// are, and so does putting in again one that is there.
pub proof fn history_is_kept(
    store: Map<Seq<char>, Seq<Seq<char>>>,
    parent: Option<Seq<char>>,
    fs: Seq<FactView>,
    id: Seq<char>,
)
    requires
        store.dom().contains(id),
    ensures
        with_snapshot(store, parent, fs).dom().contains(id),
        with_snapshot(store, parent, fs)[id] == store[id],
        with_snapshot(store, parent, fs).dom().contains(digest(snapshot_json(parent, fs))),
{
}

/// What an optional string says.
pub open spec fn str_opt(o: Option<&str>) -> Option<Seq<char>> {
    match o {
        Some(s) => Some(s@),
        None => None,
    }
}

/// What is said of a snapshot that is not there.
pub open spec fn unknown_facts(id: Seq<char>) -> Seq<char> {
    "unknown fact snapshot '"@ + id + "'"@
}

/// What is said of a name that stands for nothing.
pub open spec fn unknown_name(name: Seq<char>) -> Seq<char> {
    "unknown snapshot or ref '"@ + name + "'"@
}

/// What is said of a name that may not be given to a snapshot.
pub open spec fn bad_ref_name() -> Seq<char> {
    "snapshot ref must use only letters, digits, '.', '-', or '_'"@
}

/// Whether a snapshot can be read: where it is not known, it is refused.
pub fn require_known(snapshot_id: &str, known: bool) -> (r: Result<(), String>)
    ensures
        r is Ok <==> known,
        r is Err ==> r->Err_0@ == unknown_facts(snapshot_id@),
{
    if known {
        Ok(())
    } else {
        Err(cat3("unknown fact snapshot '", snapshot_id, "'"))
    }
}

/// The snapshot that a name stands for: the one that it was set to, or else the one that has it for
/// its id.
pub fn resolved(name: &str, target: Option<String>, known: bool) -> (r: Result<String, String>)
    ensures
        r is Ok <==> target is Some || known,
        match r {
            Ok(id) => id@ == match target {
                Some(t) => t@,
                None => name@,
            },
            Err(e) => e@ == unknown_name(name@),
        },
{
    match target {
        Some(id) => Ok(id),
        None => if known {
            Ok(name.to_owned())
        } else {
            Err(cat3("unknown snapshot or ref '", name, "'"))
        },
    }
}

/// Whether facts are the canonical list of others.
#[verifier::opaque]
pub open spec fn lists_canonical(kept: Seq<Fact>, facts: Seq<Fact>) -> bool {
    fact_views(kept) == canonical(fact_views(facts))
}

/// The snapshot of facts over a parent, with the canonical list of the facts.
fn snapshot_over(parent_id: Option<&str>, facts: &Vec<Fact>) -> (r: (Snapshot, Vec<Fact>))
    ensures
        r.0.snaps(str_opt(parent_id), fact_views(facts@)),
        lists_canonical(r.1@, facts@),
{
    reveal(lists_canonical);
    reveal(Snapshot::snaps);
    let parent: Option<String> = match parent_id {
        Some(p) => Some(p.to_owned()),
        None => None,
    };
    make_snapshot(&parent, facts)
}

/// Where facts are kept. What an implementation brings is the bare access to what is kept: whether a
/// snapshot is there, its facts, putting one in, and the names of snapshots. What is kept may be
/// changed from elsewhere at any time, so that nothing is said of what the bare access gives. What is
/// asked of it, and what becomes of its replies, is decided and stated here.
pub trait FactStore {
    /// Whether a snapshot is there.
    fn is_known(&self, snapshot_id: &str) -> Result<bool, String>;

    /// Puts in a snapshot with its canonical facts, by `rows_to_add` and in one step; one that is
    /// there stays as it is.
    fn put_snapshot(&self, snapshot: &Snapshot, facts: &Vec<Fact>) -> Result<(), String>;

    /// The facts of a snapshot that is there.
    fn load_facts(&self, snapshot_id: &str) -> Result<Vec<Fact>, String>;

    /// The snapshot that a name was set to.
    fn ref_target(&self, name: &str) -> Result<Option<String>, String>;

    /// Sets a name to a snapshot.
    fn put_ref(&self, name: &str, snapshot_id: &str) -> Result<(), String>;

    /// Keeps facts over a parent, and hands back their snapshot: it is known by the parent and the
    /// facts alone, and its canonical facts are what is put in. An error is that of putting it in.
    fn create_snapshot(&self, parent_id: Option<&str>, facts: &Vec<Fact>) -> (r: Result<
        Snapshot,
        String,
    >)
        ensures
            r is Ok ==> r->Ok_0.snaps(str_opt(parent_id), fact_views(facts@)) && exists|
                kept: Vec<Fact>,
                put: Result<(), String>,
            | #[trigger]
                call_ensures(Self::put_snapshot, (self, &r->Ok_0, &kept), put) && put is Ok
                    && lists_canonical(kept@, facts@),
            r is Err ==> exists|s: Snapshot, kept: Vec<Fact>| #[trigger]
                call_ensures(Self::put_snapshot, (self, &s, &kept), Err(r->Err_0)) && s.snaps(
                    str_opt(parent_id),
                    fact_views(facts@),
                ) && lists_canonical(kept@, facts@),
    {
        let (snapshot, kept) = snapshot_over(parent_id, facts);
        let put = self.put_snapshot(&snapshot, &kept);
        assert(call_ensures(Self::put_snapshot, (self, &snapshot, &kept), put));
        match put {
            Ok(_) => {
                let r: Result<Snapshot, String> = Ok(snapshot);
                assert(call_ensures(Self::put_snapshot, (self, &r->Ok_0, &kept), put));
                r
            },
            Err(e) => {
                let r: Result<Snapshot, String> = Err(e);
                assert(call_ensures(
                    Self::put_snapshot,
                    (self, &snapshot, &kept),
                    Err(r->Err_0),
                ));
                r
            },
        }
    }

    /// The facts of a snapshot, where the store knows it; see `require_known`.
    fn facts(&self, snapshot_id: &str) -> (r: Result<Vec<Fact>, String>)
        ensures
            match r {
                Ok(fs) => call_ensures(Self::is_known, (self, snapshot_id), Ok(true))
                    && call_ensures(Self::load_facts, (self, snapshot_id), Ok(fs)),
                Err(e) => call_ensures(Self::is_known, (self, snapshot_id), Err(e)) || (
                call_ensures(Self::is_known, (self, snapshot_id), Ok(false)) && e@ == unknown_facts(
                    snapshot_id@,
                )) || (call_ensures(Self::is_known, (self, snapshot_id), Ok(true)) && call_ensures(
                    Self::load_facts,
                    (self, snapshot_id),
                    Err(e),
                )),
            },
    {
        let known = match self.is_known(snapshot_id) {
            Ok(known) => known,
            Err(e) => {
                return Err(e);
            },
        };
        match require_known(snapshot_id, known) {
            Ok(_) => self.load_facts(snapshot_id),
            Err(e) => Err(e),
        }
    }

    /// The answer to a question over a snapshot: the one that the facts of the snapshot give.
    fn query(&self, snapshot_id: &str, query: &BqlQuery) -> (r: Result<QueryResult, String>)
        ensures
            match r {
                Ok(a) => call_ensures(Self::is_known, (self, snapshot_id), Ok(true)) && exists|
                    fs: Vec<Fact>,
                | #[trigger]
                    call_ensures(Self::load_facts, (self, snapshot_id), Ok(fs)) && a.answers(
                        fact_views(fs@),
                        *query,
                    ),
                Err(e) => call_ensures(Self::is_known, (self, snapshot_id), Err(e)) || (
                call_ensures(Self::is_known, (self, snapshot_id), Ok(false)) && e@ == unknown_facts(
                    snapshot_id@,
                )) || (call_ensures(Self::is_known, (self, snapshot_id), Ok(true)) && call_ensures(
                    Self::load_facts,
                    (self, snapshot_id),
                    Err(e),
                )),
            },
    {
        match self.facts(snapshot_id) {
            Ok(facts) => {
                let a = answer(&facts, query);
                assert(call_ensures(Self::load_facts, (self, snapshot_id), Ok(facts)));
                assert(a.answers(fact_views(facts@), *query));
                Ok(a)
            },
            Err(e) => Err(e),
        }
    }

    /// Sets a name to a snapshot; a name that may not be given is refused, and nothing is set.
    fn set_ref(&self, name: &str, snapshot_id: &str) -> (r: Result<(), String>)
        ensures
            if crate::blueprint::safe_id(name@) {
                call_ensures(Self::put_ref, (self, name, snapshot_id), r)
            } else {
                r is Err && r->Err_0@ == bad_ref_name()
            },
    {
        if is_ref_name(name) {
            self.put_ref(name, snapshot_id)
        } else {
            Err("snapshot ref must use only letters, digits, '.', '-', or '_'".to_owned())
        }
    }

    /// The id of the snapshot that a name stands for, see `resolved`.
    fn resolve_snapshot(&self, id_or_ref: &str) -> (r: Result<String, String>)
        ensures
            match r {
                Ok(id) => (exists|t: String| #[trigger]
                    call_ensures(Self::ref_target, (self, id_or_ref), Ok(Some(t))) && t@ == id@) || (
                id@ == id_or_ref@ && call_ensures(Self::ref_target, (self, id_or_ref), Ok(None))
                    && call_ensures(Self::is_known, (self, id_or_ref), Ok(true))),
                Err(e) => call_ensures(Self::ref_target, (self, id_or_ref), Err(e)) || (
                call_ensures(Self::ref_target, (self, id_or_ref), Ok(None)) && (call_ensures(
                    Self::is_known,
                    (self, id_or_ref),
                    Err(e),
                ) || (call_ensures(Self::is_known, (self, id_or_ref), Ok(false)) && e@
                    == unknown_name(id_or_ref@)))),
            },
    {
        let target = match self.ref_target(id_or_ref) {
            Ok(target) => target,
            Err(e) => {
                return Err(e);
            },
        };
        match target {
            Some(id) => {
                assert(call_ensures(Self::ref_target, (self, id_or_ref), Ok(Some(id))));
                resolved(id_or_ref, Some(id), false)
            },
            None => {
                assert(call_ensures(Self::ref_target, (self, id_or_ref), Ok(None)));
                match self.is_known(id_or_ref) {
                    Ok(known) => resolved(id_or_ref, None, known),
                    Err(e) => Err(e),
                }
            },
        }
    }
}

// ── telling snapshots apart ────────────────────────────────────────────────────────────

proof fn object_apart(a: ObjectView, b: ObjectView, s: Seq<char>, t: Seq<char>)
    requires
        object_json(a) + s == object_json(b) + t,
    ensures
        a == b,
        s == t,
{
    reveal_strlit("{\"kind\":\"entity\",\"value\":");
    reveal_strlit("{\"kind\":\"text\",\"value\":");
    reveal_strlit("{\"kind\":\"integer\",\"value\":");
    reveal_strlit("{\"kind\":\"boolean\",\"value\":");
    reveal_strlit("}");
    assert("}"@ =~= seq!['}']);
    let x = object_json(a) + s;
    let y = object_json(b) + t;
    assert(x[9] == object_json(a)[9]);
    assert(y[9] == object_json(b)[9]);
    match (a, b) {
        (ObjectView::Entity(p), ObjectView::Entity(q)) => {
            let l = "{\"kind\":\"entity\",\"value\":"@;
            value_regroups(l, json_string(p), s);
            value_regroups(l, json_string(q), t);
            strip_same(l, json_string(p) + ("}"@ + s), json_string(q) + ("}"@ + t));
            string_apart(p, q, "}"@ + s, "}"@ + t);
            strip_same("}"@, s, t);
        },
        (ObjectView::Text(p), ObjectView::Text(q)) => {
            let l = "{\"kind\":\"text\",\"value\":"@;
            value_regroups(l, json_string(p), s);
            value_regroups(l, json_string(q), t);
            strip_same(l, json_string(p) + ("}"@ + s), json_string(q) + ("}"@ + t));
            string_apart(p, q, "}"@ + s, "}"@ + t);
            strip_same("}"@, s, t);
        },
        (ObjectView::Integer(m), ObjectView::Integer(n)) => {
            let l = "{\"kind\":\"integer\",\"value\":"@;
            value_regroups(l, dec_int(m as int), s);
            value_regroups(l, dec_int(n as int), t);
            strip_same(l, dec_int(m as int) + ("}"@ + s), dec_int(n as int) + ("}"@ + t));
            integer_apart(m as int, n as int, s, t);
        },
        (ObjectView::Boolean(p), ObjectView::Boolean(q)) => {
            let l = "{\"kind\":\"boolean\",\"value\":"@;
            value_regroups(l, json_bool(p), s);
            value_regroups(l, json_bool(q), t);
            strip_same(l, json_bool(p) + ("}"@ + s), json_bool(q) + ("}"@ + t));
            bool_apart(p, q, "}"@ + s, "}"@ + t);
            strip_same("}"@, s, t);
        },
        _ => {},
    }
}

proof fn value_regroups(l: Seq<char>, v: Seq<char>, s: Seq<char>)
    ensures
        l + v + "}"@ + s == l + (v + ("}"@ + s)),
{
    regroup(l + v, "}"@, s);
    regroup(l, v, "}"@ + s);
}

spec fn attribute_code() -> spec_fn((Seq<char>, Seq<char>)) -> Seq<char> {
    |r: (Seq<char>, Seq<char>)| attribute_json(r)
}

proof fn attribute_apart(
    a: (Seq<char>, Seq<char>),
    b: (Seq<char>, Seq<char>),
    s: Seq<char>,
    t: Seq<char>,
)
    requires
        attribute_json(a) + s == attribute_json(b) + t,
    ensures
        a == b,
        s == t,
{
    regroup(json_string(a.0) + ":"@, json_string(a.1), s);
    regroup(json_string(b.0) + ":"@, json_string(b.1), t);
    regroup(json_string(a.0), ":"@, json_string(a.1) + s);
    regroup(json_string(b.0), ":"@, json_string(b.1) + t);
    string_apart(a.0, b.0, ":"@ + (json_string(a.1) + s), ":"@ + (json_string(b.1) + t));
    strip_same(":"@, json_string(a.1) + s, json_string(b.1) + t);
    string_apart(a.1, b.1, s, t);
}

/// Attributes can be told apart where the rest of a fact stands behind them.
proof fn attributes_apart(
    a: Seq<(Seq<char>, Seq<char>)>,
    b: Seq<(Seq<char>, Seq<char>)>,
    s: Seq<char>,
    t: Seq<char>,
)
    requires
        joined(a.map_values(|r: (Seq<char>, Seq<char>)| attribute_json(r)), ","@) + (
        "},\"source\":{\"adapter\":"@ + s) == joined(
            b.map_values(|r: (Seq<char>, Seq<char>)| attribute_json(r)),
            ","@,
        ) + ("},\"source\":{\"adapter\":"@ + t),
    ensures
        a == b,
        s == t,
{
    let e = attribute_code();
    assert(a.map_values(|r: (Seq<char>, Seq<char>)| attribute_json(r)) =~= a.map_values(e));
    assert(b.map_values(|r: (Seq<char>, Seq<char>)| attribute_json(r)) =~= b.map_values(e));
    reveal_strlit("},\"source\":{\"adapter\":");
    let l = "},\"source\":{\"adapter\":"@;
    let rest = l.skip(1);
    assert(l =~= seq!['}'] + rest);
    regroup(seq!['}'], rest, s);
    regroup(seq!['}'], rest, t);
    assert forall|
        x: (Seq<char>, Seq<char>),
        y: (Seq<char>, Seq<char>),
        p: Seq<char>,
        q: Seq<char>,
    |
        #![trigger e(x) + p, e(y) + q]
        e(x) + p == e(y) + q implies x == y && p == q by {
        attribute_apart(x, y, p, q);
    }
    assert forall|x: (Seq<char>, Seq<char>)| (#[trigger] e(x)).len() > 0 && e(x)[0] != '}' by {
        string_begins(x.0);
        assert(attribute_json(x)[0] == json_string(x.0)[0]);
    }
    items_apart(e, a, b, '}', rest + s, rest + t);
    strip_same(rest, s, t);
}

/// The pieces that make up the text.
spec fn fact_pieces(x: FactView) -> Seq<Seq<char>> {
    seq![
        "{\"subject\":"@,
        json_string(x.subject),
        ",\"predicate\":"@,
        json_string(x.predicate),
        ",\"object\":"@,
        object_json(x.object),
        ",\"attributes\":{"@,
        joined(
            x.attributes.map_values(|r: (Seq<char>, Seq<char>)| attribute_json(r)),
            ","@,
        ),
        "},\"source\":{\"adapter\":"@,
        json_string(x.adapter),
        ",\"locator\":"@,
        json_string(x.locator),
        ",\"digest\":"@,
        json_string(x.digest),
        "}}"@,
    ]
}

proof fn fact_pieces_facts(x: FactView, s: Seq<char>)
    ensures
        fact_json(x) + s == rest_from(fact_pieces(x), 0, s),
{
    reveal_with_fuel(strung, 16);
    let ps = fact_pieces(x);
    assert(fact_json(x) == strung(ps, 15));
    strung_from_front(ps, s);
}

#[verifier::spinoff_prover]
#[verifier::rlimit(50)]
proof fn fact_apart(a: FactView, b: FactView, s: Seq<char>, t: Seq<char>)
    requires
        fact_json(a) + s == fact_json(b) + t,
    ensures
        a == b,
        s == t,
{
    fact_pieces_facts(a, s);
    fact_pieces_facts(b, t);
    let p = fact_pieces(a);
    let q = fact_pieces(b);
    strip_same(p[0], rest_from(p, 1, s), rest_from(q, 1, t));
    string_apart(a.subject, b.subject, rest_from(p, 2, s), rest_from(q, 2, t));
    strip_same(p[2], rest_from(p, 3, s), rest_from(q, 3, t));
    string_apart(a.predicate, b.predicate, rest_from(p, 4, s), rest_from(q, 4, t));
    strip_same(p[4], rest_from(p, 5, s), rest_from(q, 5, t));
    object_apart(a.object, b.object, rest_from(p, 6, s), rest_from(q, 6, t));
    strip_same(p[6], rest_from(p, 7, s), rest_from(q, 7, t));
    assert(rest_from(p, 8, s) == p[8] + rest_from(p, 9, s));
    assert(rest_from(q, 8, t) == q[8] + rest_from(q, 9, t));
    attributes_apart(a.attributes, b.attributes, rest_from(p, 9, s), rest_from(q, 9, t));
    string_apart(a.adapter, b.adapter, rest_from(p, 10, s), rest_from(q, 10, t));
    strip_same(p[10], rest_from(p, 11, s), rest_from(q, 11, t));
    string_apart(a.locator, b.locator, rest_from(p, 12, s), rest_from(q, 12, t));
    strip_same(p[12], rest_from(p, 13, s), rest_from(q, 13, t));
    string_apart(a.digest, b.digest, rest_from(p, 14, s), rest_from(q, 14, t));
    strip_same(p[14], rest_from(p, 15, s), rest_from(q, 15, t));
}

spec fn fact_code() -> spec_fn(FactView) -> Seq<char> {
    |f: FactView| fact_json(f)
}

/// Snapshots are known by their contents: those that are written the same have the same parent and
/// the same facts. So where any of these differs, the bytes whose digest is the identity of the
/// snapshot differ too.
pub proof fn snapshot_tells_apart(
    parent: Option<Seq<char>>,
    fs: Seq<FactView>,
    other_parent: Option<Seq<char>>,
    other: Seq<FactView>,
)
    requires
        snapshot_json(parent, fs) == snapshot_json(other_parent, other),
    ensures
        parent == other_parent,
        canonical(fs) == canonical(other),
{
    let e = fact_code();
    let xs = canonical(fs);
    let ys = canonical(other);
    let a = json_list(xs.map_values(|f: FactView| fact_json(f)));
    let b = json_list(ys.map_values(|f: FactView| fact_json(f)));
    assert(xs.map_values(|f: FactView| fact_json(f)) =~= xs.map_values(e));
    assert(ys.map_values(|f: FactView| fact_json(f)) =~= ys.map_values(e));
    let p = json_maybe(parent);
    let q = json_maybe(other_parent);
    snapshot_regroups(p, a);
    snapshot_regroups(q, b);
    strip_same("["@, p + (","@ + (a + "]"@)), q + (","@ + (b + "]"@)));
    maybe_apart(parent, other_parent, ","@ + (a + "]"@), ","@ + (b + "]"@));
    strip_same(","@, a + "]"@, b + "]"@);
    assert forall|x: FactView, y: FactView, s: Seq<char>, t: Seq<char>|
        #![trigger e(x) + s, e(y) + t]
        e(x) + s == e(y) + t implies x == y && s == t by {
        fact_apart(x, y, s, t);
    }
    reveal_strlit("{\"subject\":");
    assert forall|x: FactView| (#[trigger] e(x)).len() > 0 && e(x)[0] != ']' by {
        assert(fact_json(x)[0] == "{\"subject\":"@[0]);
    }
    list_apart(e, xs, ys, "]"@, "]"@);
}

/// Two snapshots have one id if and only if they have the same parent and the same facts, in whatever
/// order and however often given, and a snapshot counts each fact once. Snapshots are told apart by
/// their digests, so those of these two must not collide.
pub proof fn one_id_for_one_snapshot(
    parent: Option<Seq<char>>,
    fs: Seq<FactView>,
    other_parent: Option<Seq<char>>,
    other: Seq<FactView>,
)
    requires
        digest(snapshot_json(parent, fs)) == digest(snapshot_json(other_parent, other))
            ==> snapshot_json(parent, fs) == snapshot_json(other_parent, other),
    ensures
        digest(snapshot_json(parent, fs)) == digest(snapshot_json(other_parent, other)) <==> parent
            == other_parent && forall|f: FactView| #[trigger] fs.contains(f) <==> other.contains(f),
        canonical(fs).len() == fs.to_set().len(),
{
    if digest(snapshot_json(parent, fs)) == digest(snapshot_json(other_parent, other)) {
        snapshot_tells_apart(parent, fs, other_parent, other);
        assert forall|f: FactView| #[trigger] fs.contains(f) <==> other.contains(f) by {
            canonical_holds_facts(fs, f);
            canonical_holds_facts(other, f);
        }
    }
    if parent == other_parent && forall|f: FactView| #[trigger]
        fs.contains(f) <==> other.contains(f) {
        snapshot_ignores_order(parent, fs, other);
    }
    let c = canonical(fs);
    canonical_facts(fs);
    assert(c.no_duplicates()) by {
        assert forall|i: int, j: int| 0 <= i < c.len() && 0 <= j < c.len() && i != j implies c[i]
            != c[j] by {
            crate::order::before_irreflexive(c[i].rank());
            if i < j {
                assert(before(c[i].rank(), c[j].rank()));
            } else {
                assert(before(c[j].rank(), c[i].rank()));
            }
        }
    }
    assert(c.to_set() =~= fs.to_set()) by {
        assert forall|f: FactView| #[trigger] c.to_set().contains(f) <==> fs.to_set().contains(f) by {
            canonical_holds_facts(fs, f);
        }
    }
    c.unique_seq_to_set();
}

/// Of two snapshots that a store made, the ids are the same if and only if their parents are and they
/// hold the same facts, in whatever order and however often given; and each counts the facts that are
/// different. Snapshots are told apart by their digests, so those of these two must not collide.
pub proof fn stores_tell_snapshots_apart(
    a: Snapshot,
    parent: Option<Seq<char>>,
    fs: Seq<FactView>,
    b: Snapshot,
    other_parent: Option<Seq<char>>,
    other: Seq<FactView>,
)
    requires
        a.snaps(parent, fs),
        b.snaps(other_parent, other),
        a.id@ == b.id@ ==> snapshot_json(parent, fs) == snapshot_json(other_parent, other),
    ensures
        a.id@ == b.id@ <==> parent == other_parent && forall|f: FactView| #[trigger]
            fs.contains(f) <==> other.contains(f),
        a.fact_count == fs.to_set().len(),
        b.fact_count == other.to_set().len(),
{
    reveal(Snapshot::snaps);
    one_id_for_one_snapshot(parent, fs, other_parent, other);
    one_id_for_one_snapshot(other_parent, other, parent, fs);
}

proof fn snapshot_regroups(p: Seq<char>, a: Seq<char>)
    ensures
        "["@ + p + ","@ + a + "]"@ == "["@ + (p + (","@ + (a + "]"@))),
{
    regroup("["@ + p + ","@, a, "]"@);
    regroup("["@ + p, ","@, a + "]"@);
    regroup("["@, p, ","@ + (a + "]"@));
}

/// The facts of a snapshot are themselves a snapshot: storing what was stored changes nothing.
pub proof fn snapshot_is_settled(parent: Option<Seq<char>>, fs: Seq<FactView>)
    ensures
        canonical(canonical(fs)) == canonical(fs),
        snapshot_json(parent, canonical(fs)) == snapshot_json(parent, fs),
{
    canonical_facts(fs);
    canonical_fixed(canonical(fs));
}

// ── questions ──────────────────────────────────────────────────────────────────────────

/// Which way dependencies are followed.
#[derive(Debug, Clone, Copy, PartialEq, Eq, Structural)]
pub enum Traversal {
    /// To what an entity depends on.
    Dependencies,
    /// To what depends on an entity.
    Impact,
}

/// A bounded question.
#[derive(Debug, Clone, PartialEq, Eq)]
pub struct BqlQuery {
    pub traversal: Traversal,
    pub entity: String,
    pub depth: usize,
}

/// The answer to a question.
#[derive(Debug)]
pub struct QueryResult {
    pub entities: Vec<String>,
    pub supporting_facts: Vec<Fact>,
}

/// Why a text is no question.
#[derive(Debug, Clone, PartialEq, Eq)]
pub enum BqlError {
    /// The text does not have the form of one.
    Syntax,
    /// There is no such way to follow dependencies.
    Traversal(String),
    /// The depth is not a number.
    NotInteger,
    /// The depth is not from 1 to 64.
    OutOfRange,
}

impl BqlError {
    /// The error in words.
    pub fn message(&self) -> (r: String)
        ensures
            r@ == match *self {
                BqlError::Syntax => "BQL syntax: (DEPENDENCIES|IMPACT) <entity> DEPTH <1..64>"@,
                BqlError::Traversal(w) => "unknown BQL traversal '"@ + w@
                    + "': expected DEPENDENCIES or IMPACT"@,
                BqlError::NotInteger => "BQL depth must be an integer"@,
                BqlError::OutOfRange => "BQL depth must be between 1 and 64"@,
            },
    {
        match self {
            BqlError::Syntax =>
                "BQL syntax: (DEPENDENCIES|IMPACT) <entity> DEPTH <1..64>".to_owned(),
            BqlError::Traversal(w) => cat3(
                "unknown BQL traversal '",
                w.as_str(),
                "': expected DEPENDENCIES or IMPACT",
            ),
            BqlError::NotInteger => "BQL depth must be an integer".to_owned(),
            BqlError::OutOfRange => "BQL depth must be between 1 and 64".to_owned(),
        }
    }
}

/// Whether two words are the same but for the case of ASCII letters.
pub open spec fn same_word(a: Seq<char>, b: Seq<char>) -> bool {
    a.map_values(|c: char| lower(c)) == b.map_values(|c: char| lower(c))
}

/// The digits of a number behind an optional plus sign.
pub open spec fn digits_of(s: Seq<char>) -> Seq<char> {
    if s.len() > 0 && s[0] == '+' {
        s.skip(1)
    } else {
        s
    }
}

/// The number that the first `n` characters write in decimal.
pub open spec fn value_upto(s: Seq<char>, n: int) -> int
    decreases n,
{
    if n <= 0 {
        0
    } else {
        10 * value_upto(s, n - 1) + (s[n - 1] as u32 - 48)
    }
}

/// The number that a text writes: decimal digits, perhaps behind a plus sign, that fit into a
/// machine number.
pub open spec fn number_in(s: Seq<char>) -> Option<int> {
    let d = digits_of(s);
    if d.len() > 0 && (forall|i: int| 0 <= i < d.len() ==> '0' <= #[trigger] d[i] <= '9')
        && value_upto(d, d.len() as int) <= usize::MAX {
        Some(value_upto(d, d.len() as int))
    } else {
        None
    }
}

/// What is wrong with the words of a question.
pub open spec fn question_fault(w: Seq<Seq<char>>) -> Option<BqlError> {
    if !(w.len() == 4 && same_word(w[2], "DEPTH"@)) {
        Some(BqlError::Syntax)
    } else if number_in(w[3]) is None {
        Some(BqlError::NotInteger)
    } else if !(1 <= number_in(w[3])->0 <= 64) {
        Some(BqlError::OutOfRange)
    } else {
        None
    }
}

fn same_but_case(a: &str, b: &str) -> (r: bool)
    ensures
        r == same_word(a@, b@),
{
    same(to_lower(a).as_str(), to_lower(b).as_str())
}

proof fn value_grows(s: Seq<char>, a: int, b: int)
    requires
        0 <= a <= b <= s.len(),
        forall|i: int| 0 <= i < s.len() ==> '0' <= #[trigger] s[i] <= '9',
    ensures
        0 <= value_upto(s, a) <= value_upto(s, b),
    decreases b,
{
    if b > 0 {
        if a < b {
            value_grows(s, a, b - 1);
        } else {
            value_grows(s, a - 1, b - 1);
        }
        assert('0' <= s[b - 1] <= '9');
    }
}

fn parse_number(s: &str) -> (r: Option<usize>)
    ensures
        crate::text::place(r) == number_in(s@),
{
    let a = chars(s);
    let from: usize = if a.len() > 0 && a[0] == '+' {
        1
    } else {
        0
    };
    let ghost d = digits_of(s@);
    assert(d =~= s@.skip(from as int));
    if a.len() == from {
        return None;
    }
    let mut i: usize = from;
    while i < a.len()
        invariant
            from <= i <= a.len(),
            a@ == s@,
            d == digits_of(s@),
            d == s@.skip(from as int),
            forall|k: int| 0 <= k < i - from ==> '0' <= #[trigger] d[k] <= '9',
        decreases a.len() - i,
    {
        assert(d[i - from] == a@[i as int]);
        if !('0' <= a[i] && a[i] <= '9') {
            return None;
        }
        i += 1;
    }
    let mut n: usize = 0;
    let mut i: usize = from;
    while i < a.len()
        invariant
            from <= i <= a.len(),
            a@ == s@,
            d == digits_of(s@),
            d == s@.skip(from as int),
            d.len() > 0,
            forall|k: int| 0 <= k < d.len() ==> '0' <= #[trigger] d[k] <= '9',
            n == value_upto(d, i - from),
        decreases a.len() - i,
    {
        assert(d[i - from] == a@[i as int]);
        let c: u32 = a[i] as u32;
        let x: u128 = (n as u128) * 10 + ((c - 48) as u128);
        assert(x == value_upto(d, i - from + 1));
        if x > usize::MAX as u128 {
            proof {
                value_grows(d, i - from + 1, d.len() as int);
            }
            return None;
        }
        n = x as usize;
        i += 1;
    }
    Some(n)
}

impl BqlQuery {
    /// The question that a text asks: a way to follow dependencies, an entity, and how far, as in
    /// `IMPACT database DEPTH 2`.
    pub fn parse(text: &str) -> (r: Result<BqlQuery, BqlError>)
        ensures
            match r {
                Ok(q) => question_fault(words(text@)) is None && q.entity@ == words(text@)[1]
                    && q.depth == number_in(words(text@)[3])->0 && (
                q.traversal == Traversal::Dependencies ==> same_word(
                    words(text@)[0],
                    "DEPENDENCIES"@,
                )) && (q.traversal == Traversal::Impact ==> same_word(words(text@)[0], "IMPACT"@)
                    && !same_word(words(text@)[0], "DEPENDENCIES"@)),
                Err(BqlError::Traversal(w)) => words(text@).len() == 4 && same_word(
                    words(text@)[2],
                    "DEPTH"@,
                ) && w@ == words(text@)[0] && !same_word(words(text@)[0], "DEPENDENCIES"@)
                    && !same_word(words(text@)[0], "IMPACT"@),
                Err(e) => question_fault(words(text@)) == Some(e) && (e == BqlError::Syntax
                    || same_word(words(text@)[0], "DEPENDENCIES"@) || same_word(
                    words(text@)[0],
                    "IMPACT"@,
                )),
            },
    {
        let w = split_whitespace(text);
        let ghost all = words(text@);
        assert(all.len() == w@.len());
        if w.len() != 4 {
            return Err(BqlError::Syntax);
        }
        proof {
            assert(texts(w@)[0] == w@[0]@);
            assert(texts(w@)[1] == w@[1]@);
            assert(texts(w@)[2] == w@[2]@);
            assert(texts(w@)[3] == w@[3]@);
        }
        if !same_but_case(w[2].as_str(), "DEPTH") {
            return Err(BqlError::Syntax);
        }
        let traversal = if same_but_case(w[0].as_str(), "DEPENDENCIES") {
            Traversal::Dependencies
        } else if same_but_case(w[0].as_str(), "IMPACT") {
            Traversal::Impact
        } else {
            return Err(BqlError::Traversal(w[0].clone()));
        };
        let depth = match parse_number(w[3].as_str()) {
            Some(n) => n,
            None => {
                return Err(BqlError::NotInteger);
            },
        };
        if depth < 1 || depth > 64 {
            return Err(BqlError::OutOfRange);
        }
        Ok(BqlQuery { traversal, entity: w[1].clone(), depth })
    }
}

// ── following dependencies ─────────────────────────────────────────────────────────────

/// The ends of the dependency that a fact states, as a question follows it; nothing where it
/// states none.
pub open spec fn dependency(f: FactView, t: Traversal) -> Option<(Seq<char>, Seq<char>)> {
    match f.object {
        ObjectView::Entity(o) => if f.predicate == "depends-on"@ {
            match t {
                Traversal::Dependencies => Some((f.subject, o)),
                Traversal::Impact => Some((o, f.subject)),
            }
        } else {
            None
        },
        _ => None,
    }
}

/// Where the fact at a position leads from an entity.
pub open spec fn target_at(fs: Seq<FactView>, t: Traversal, from: Seq<char>) -> spec_fn(int) -> Seq<
    Seq<char>,
> {
    |i: int|
        match dependency(fs[i], t) {
            Some((a, b)) => if a == from {
                seq![b]
            } else {
                seq![]
            },
            None => seq![],
        }
}

/// Where the facts lead from an entity, in order.
pub open spec fn targets(fs: Seq<FactView>, t: Traversal, from: Seq<char>) -> Seq<Seq<char>> {
    arranged(gather(fs.len() as int, target_at(fs, t, from)))
}

/// What was found with the first `n` of `more` that are new behind it.
pub open spec fn found_more(found: Seq<Seq<char>>, more: Seq<Seq<char>>, n: int) -> Seq<Seq<char>>
    decreases n,
{
    if n <= 0 {
        found
    } else {
        let f = found_more(found, more, n - 1);
        if f.contains(more[n - 1]) {
            f
        } else {
            f.push(more[n - 1])
        }
    }
}

/// What is found once the entities from position `i` up to `end` were followed.
pub open spec fn followed(
    fs: Seq<FactView>,
    t: Traversal,
    found: Seq<Seq<char>>,
    i: int,
    end: int,
) -> Seq<Seq<char>>
    decreases end - i,
{
    if i >= end || i >= found.len() || i < 0 {
        found
    } else {
        let more = targets(fs, t, found[i]);
        followed(fs, t, found_more(found, more, more.len() as int), i + 1, end)
    }
}

/// What is found within `depth` more steps, of which the entities from position `from` on are
/// still to be followed.
pub open spec fn found_within(
    fs: Seq<FactView>,
    t: Traversal,
    found: Seq<Seq<char>>,
    from: int,
    depth: nat,
) -> Seq<Seq<char>>
    decreases depth,
{
    if depth == 0 {
        found
    } else {
        found_within(
            fs,
            t,
            followed(fs, t, found, from, found.len() as int),
            found.len() as int,
            (depth - 1) as nat,
        )
    }
}

/// The entity and what is found within `depth` steps from it, as it is found: what takes fewer
/// steps first.
pub open spec fn reached(fs: Seq<FactView>, t: Traversal, entity: Seq<char>, depth: nat) -> Seq<
    Seq<char>,
> {
    found_within(fs, t, seq![entity], 0, depth)
}

/// The entities that a question of that depth follows: those that take fewer steps.
pub open spec fn followed_upto(
    fs: Seq<FactView>,
    t: Traversal,
    entity: Seq<char>,
    depth: nat,
) -> Seq<Seq<char>> {
    if depth == 0 {
        seq![]
    } else {
        reached(fs, t, entity, (depth - 1) as nat)
    }
}

/// The fact at a position, where it leads from one of several entities.
pub open spec fn support_at(fs: Seq<FactView>, t: Traversal, from: Seq<Seq<char>>) -> spec_fn(
    int,
) -> Seq<FactView> {
    |i: int|
        match dependency(fs[i], t) {
            Some((a, _)) => if from.contains(a) {
                seq![fs[i]]
            } else {
                seq![]
            },
            None => seq![],
        }
}

/// The facts that lead from one of several entities, in order and each once.
pub open spec fn support(fs: Seq<FactView>, t: Traversal, from: Seq<Seq<char>>) -> Seq<FactView> {
    canonical(gather(fs.len() as int, support_at(fs, t, from)))
}

fn find_dependency(f: &Fact, t: Traversal) -> (r: Option<(&String, &String)>)
    ensures
        match r {
            Some((a, b)) => dependency(f@, t) == Some((a@, b@)),
            None => dependency(f@, t) is None,
        },
{
    if !same(f.predicate.as_str(), "depends-on") {
        return None;
    }
    match &f.object {
        FactObject::Entity(o) => match t {
            Traversal::Dependencies => Some((&f.subject, o)),
            Traversal::Impact => Some((o, &f.subject)),
        },
        _ => None,
    }
}

fn list_targets(fs: &Vec<Fact>, t: Traversal, from: &str) -> (r: Vec<String>)
    ensures
        texts(r@) == targets(fact_views(fs@), t, from@),
{
    let ghost all = fact_views(fs@);
    let mut out: Vec<String> = Vec::new();
    let mut i: usize = 0;
    while i < fs.len()
        invariant
            i <= fs.len(),
            all == fact_views(fs@),
            texts(out@) =~= gather(i as int, target_at(all, t, from@)),
        decreases fs.len() - i,
    {
        assert(all[i as int] == fs@[i as int]@);
        match find_dependency(&fs[i], t) {
            Some((a, b)) => {
                if same(a.as_str(), from) {
                    put(&mut out, b.clone());
                }
            },
            None => {},
        }
        i += 1;
    }
    crate::order::sort_texts(out)
}

fn add_found(found: &mut Vec<String>, more: &Vec<String>)
    ensures
        texts(final(found)@) == found_more(
            texts(old(found)@),
            texts(more@),
            more@.len() as int,
        ),
        final(found)@.len() >= old(found)@.len(),
{
    let ghost before = texts(found@);
    let ghost all = texts(more@);
    let mut i: usize = 0;
    while i < more.len()
        invariant
            i <= more.len(),
            all == texts(more@),
            texts(found@) == found_more(before, all, i as int),
            found@.len() >= before.len(),
        decreases more.len() - i,
    {
        assert(all[i as int] == more@[i as int]@);
        if !holds(found, more[i].as_str()) {
            put(found, more[i].clone());
        }
        i += 1;
    }
}

fn follow_level(fs: &Vec<Fact>, t: Traversal, found: &mut Vec<String>, from: usize)
    requires
        from <= old(found)@.len(),
    ensures
        texts(final(found)@) == followed(
            fact_views(fs@),
            t,
            texts(old(found)@),
            from as int,
            old(found)@.len() as int,
        ),
        final(found)@.len() >= old(found)@.len(),
{
    let end = found.len();
    let ghost all = fact_views(fs@);
    let ghost goal = followed(all, t, texts(found@), from as int, end as int);
    let mut i: usize = from;
    while i < end
        invariant
            from <= i <= end <= found@.len(),
            all == fact_views(fs@),
            goal == followed(all, t, texts(found@), i as int, end as int),
        decreases end - i,
    {
        let ghost now = texts(found@);
        assert(now[i as int] == found@[i as int]@);
        let more = list_targets(fs, t, found[i].as_str());
        assert(texts(more@).len() == more@.len());
        add_found(found, &more);
        i += 1;
    }
}

fn list_support(fs: &Vec<Fact>, t: Traversal, from: &Vec<String>) -> (r: Vec<Fact>)
    ensures
        fact_views(r@) == support(fact_views(fs@), t, texts(from@)),
{
    let ghost all = fact_views(fs@);
    let ghost ids = texts(from@);
    let mut out: Vec<Fact> = Vec::new();
    let mut i: usize = 0;
    while i < fs.len()
        invariant
            i <= fs.len(),
            all == fact_views(fs@),
            ids == texts(from@),
            fact_views(out@) =~= gather(i as int, support_at(all, t, ids)),
        decreases fs.len() - i,
    {
        assert(all[i as int] == fs@[i as int]@);
        let ghost before = fact_views(out@);
        match find_dependency(&fs[i], t) {
            Some((a, _b)) => {
                if holds(from, a.as_str()) {
                    let f = fs[i].copy();
                    assert(fact_views(out@.push(f)) =~= before.push(f@));
                    out.push(f);
                }
            },
            None => {},
        }
        i += 1;
    }
    sorted_facts(out)
}

impl QueryResult {
    /// Whether this is the answer that facts give to a question.
    pub open spec fn answers(self, fs: Seq<FactView>, query: BqlQuery) -> bool {
        &&& texts(self.entities@) == reached(
            fs,
            query.traversal,
            query.entity@,
            query.depth as nat,
        ).skip(1)
        &&& fact_views(self.supporting_facts@) == support(
            fs,
            query.traversal,
            followed_upto(fs, query.traversal, query.entity@, query.depth as nat),
        )
    }
}

/// The answer that facts give to a question: what is found within its depth, and the facts that
/// lead there.
pub fn answer(facts: &Vec<Fact>, query: &BqlQuery) -> (r: QueryResult)
    ensures
        r.answers(fact_views(facts@), *query),
{
    let t = query.traversal;
    let ghost all = fact_views(facts@);
    let ghost start = seq![query.entity@];
    let mut found: Vec<String> = Vec::new();
    put(&mut found, query.entity.clone());
    assert(texts(found@) =~= start);
    let mut followed_ids: Vec<String> = Vec::new();
    let mut from: usize = 0;
    let mut step: usize = 0;
    while step < query.depth
        invariant
            step <= query.depth,
            t == query.traversal,
            all == fact_views(facts@),
            start == seq![query.entity@],
            from <= found@.len(),
            found@.len() > 0,
            texts(found@) == found_within(all, t, start, 0, step as nat),
            from == level_start(all, t, start, 0, step as nat),
            texts(followed_ids@) =~= followed_upto(all, t, query.entity@, step as nat),
        decreases query.depth - step,
    {
        proof {
            level_grows(all, t, start, 0, step as nat);
        }
        let end = found.len();
        followed_ids = crate::text::copy_all(&found);
        follow_level(facts, t, &mut found, from);
        from = end;
        step += 1;
    }
    let total = found.len();
    let mut entities: Vec<String> = Vec::new();
    let ghost whole = texts(found@);
    let mut i: usize = 1;
    while i < total
        invariant
            1 <= i,
            i <= total || total == 0,
            total == found@.len(),
            whole == texts(found@),
            texts(entities@) =~= whole.subrange(1, i as int),
            total > 0,
        decreases total - i,
    {
        put(&mut entities, found[i].clone());
        i += 1;
    }
    assert(whole.subrange(1, whole.len() as int) =~= whole.skip(1));
    QueryResult { entities, supporting_facts: list_support(facts, t, &followed_ids) }
}

/// From where on entities are still to be followed after `depth` steps.
spec fn level_start(
    fs: Seq<FactView>,
    t: Traversal,
    found: Seq<Seq<char>>,
    from: int,
    depth: nat,
) -> int
    decreases depth,
{
    if depth == 0 {
        from
    } else {
        level_start(
            fs,
            t,
            followed(fs, t, found, from, found.len() as int),
            found.len() as int,
            (depth - 1) as nat,
        )
    }
}

/// One step more is one level more.
proof fn level_grows(
    fs: Seq<FactView>,
    t: Traversal,
    found: Seq<Seq<char>>,
    from: int,
    depth: nat,
)
    ensures
        found_within(fs, t, found, from, depth + 1) == followed(
            fs,
            t,
            found_within(fs, t, found, from, depth),
            level_start(fs, t, found, from, depth),
            found_within(fs, t, found, from, depth).len() as int,
        ),
        level_start(fs, t, found, from, depth + 1) == found_within(fs, t, found, from, depth).len(),
    decreases depth,
{
    if depth == 0 {
        reveal_with_fuel(found_within, 2);
        reveal_with_fuel(level_start, 2);
    } else {
        level_grows(
            fs,
            t,
            followed(fs, t, found, from, found.len() as int),
            found.len() as int,
            (depth - 1) as nat,
        );
    }
}

// ── what an answer promises ────────────────────────────────────────────────────────────

/// Whether the facts lead from `a` to `b` in one step.
pub open spec fn leads_to(fs: Seq<FactView>, t: Traversal, a: Seq<char>, b: Seq<char>) -> bool {
    exists|i: int| 0 <= i < fs.len() && dependency(#[trigger] fs[i], t) == Some((a, b))
}

/// Whether the facts lead from `a` to `b` in at most `n` steps.
pub open spec fn leads_within(
    fs: Seq<FactView>,
    t: Traversal,
    a: Seq<char>,
    b: Seq<char>,
    n: nat,
) -> bool
    decreases n,
{
    a == b || (n > 0 && exists|m: Seq<char>|
        leads_within(fs, t, a, m, (n - 1) as nat) && #[trigger] leads_to(fs, t, m, b))
}

proof fn targets_are_led(fs: Seq<FactView>, t: Traversal, a: Seq<char>, b: Seq<char>)
    ensures
        targets(fs, t, a).contains(b) <==> leads_to(fs, t, a, b),
{
    let raw = gather(fs.len() as int, target_at(fs, t, a));
    crate::order::arranged_contains(raw, b);
    crate::text::gather_contains(fs.len() as int, target_at(fs, t, a), b);
    if raw.contains(b) {
        let i = choose|i: int| 0 <= i < fs.len() && (#[trigger] (target_at(fs, t, a))(i)).contains(b);
        let one = (target_at(fs, t, a))(i);
        let k = choose|k: int| 0 <= k < one.len() && one[k] == b;
        assert(dependency(fs[i], t) == Some((a, b)));
    }
    if leads_to(fs, t, a, b) {
        let i = choose|i: int| 0 <= i < fs.len() && dependency(#[trigger] fs[i], t) == Some((a, b));
        assert((target_at(fs, t, a))(i)[0] == b);
        assert((target_at(fs, t, a))(i).contains(b));
    }
}

proof fn found_more_holds(found: Seq<Seq<char>>, more: Seq<Seq<char>>, n: int)
    requires
        0 <= n <= more.len(),
        found.no_duplicates(),
    ensures
        found_more(found, more, n).no_duplicates(),
        found_more(found, more, n).len() >= found.len(),
        found_more(found, more, n).take(found.len() as int) == found,
        forall|x: Seq<char>| #[trigger]
            found_more(found, more, n).contains(x) <==> found.contains(x) || more.take(n).contains(x),
    decreases n,
{
    if n <= 0 {
        assert(found.take(found.len() as int) =~= found);
        assert forall|x: Seq<char>| !#[trigger] more.take(0).contains(x) by {}
    } else {
        found_more_holds(found, more, n - 1);
        let f = found_more(found, more, n - 1);
        let g = found_more(found, more, n);
        let x = more[n - 1];
        assert(more.take(n) =~= more.take(n - 1).push(x));
        assert(g.take(found.len() as int) =~= f.take(found.len() as int));
        assert forall|y: Seq<char>| #[trigger] g.contains(y) <==> found.contains(y) || more.take(
            n,
        ).contains(y) by {
            crate::order::pushed_contains(more.take(n - 1), x, y);
            crate::order::pushed_contains(f, x, y);
        }
    }
}

/// Whether everything that the entities before position `n` lead to was found.
spec fn closed_upto(fs: Seq<FactView>, t: Traversal, found: Seq<Seq<char>>, n: int) -> bool {
    forall|i: int, b: Seq<char>|
        0 <= i < n && i < found.len() && #[trigger] leads_to(fs, t, found[i], b) ==> found.contains(b)
}

proof fn followed_holds(
    fs: Seq<FactView>,
    t: Traversal,
    found: Seq<Seq<char>>,
    i: int,
    end: int,
)
    requires
        0 <= i <= end <= found.len(),
        found.no_duplicates(),
    ensures
        followed(fs, t, found, i, end).no_duplicates(),
        followed(fs, t, found, i, end).len() >= found.len(),
        followed(fs, t, found, i, end).take(found.len() as int) == found,
        forall|x: Seq<char>| #[trigger]
            followed(fs, t, found, i, end).contains(x) ==> found.contains(x) || exists|k: int|
                i <= k < end && leads_to(fs, t, #[trigger] found[k], x),
        forall|k: int, x: Seq<char>|
            i <= k < end && #[trigger] leads_to(fs, t, found[k], x) ==> followed(
                fs,
                t,
                found,
                i,
                end,
            ).contains(x),
    decreases end - i,
{
    if i >= end {
        assert(found.take(found.len() as int) =~= found);
    } else {
        let more = targets(fs, t, found[i]);
        let next = found_more(found, more, more.len() as int);
        found_more_holds(found, more, more.len() as int);
        assert(more.take(more.len() as int) =~= more);
        followed_holds(fs, t, next, i + 1, end);
        let r = followed(fs, t, found, i, end);
        assert(r.take(found.len() as int) =~= r.take(next.len() as int).take(found.len() as int));
        assert forall|k: int| 0 <= k < found.len() implies next[k] == found[k] by {
            assert(next.take(found.len() as int)[k] == found[k]);
        }
        assert forall|x: Seq<char>| #[trigger] r.contains(x) implies found.contains(x) || exists|k: int|
            i <= k < end && leads_to(fs, t, #[trigger] found[k], x) by {
            if next.contains(x) {
                if !found.contains(x) {
                    assert(more.contains(x));
                    targets_are_led(fs, t, found[i], x);
                    assert(leads_to(fs, t, found[i], x));
                }
            } else {
                let k = choose|k: int| i + 1 <= k < end && leads_to(fs, t, #[trigger] next[k], x);
                assert(leads_to(fs, t, found[k], x));
            }
        }
        assert forall|k: int, x: Seq<char>|
            i <= k < end && #[trigger] leads_to(fs, t, found[k], x) implies r.contains(x) by {
            if k == i {
                targets_are_led(fs, t, found[i], x);
                assert(more.take(more.len() as int).contains(x));
                assert(next.contains(x));
                let m = choose|m: int| 0 <= m < next.len() && next[m] == x;
                assert(r.take(next.len() as int)[m] == x);
                assert(r[m] == x);
            } else {
                assert(leads_to(fs, t, next[k], x));
            }
        }
    }
}

/// What an answer finds is what the facts lead to within the depth, each once: an entity is
/// found within `n` steps if and only if a chain of at most `n` dependencies leads to it.
pub proof fn reached_is_led(
    fs: Seq<FactView>,
    t: Traversal,
    entity: Seq<char>,
    n: nat,
    x: Seq<char>,
)
    ensures
        reached(fs, t, entity, n).contains(x) <==> leads_within(fs, t, entity, x, n),
        reached(fs, t, entity, n).no_duplicates(),
        reached(fs, t, entity, n).len() > 0,
        reached(fs, t, entity, n)[0] == entity,
{
    level_facts(fs, t, entity, n);
}

/// What takes fewer steps is found first: one step more only adds to what was found, behind it.
pub proof fn nearer_comes_first(fs: Seq<FactView>, t: Traversal, entity: Seq<char>, n: nat)
    ensures
        reached(fs, t, entity, n).is_prefix_of(reached(fs, t, entity, n + 1)),
{
    level_facts(fs, t, entity, n);
    level_grows(fs, t, seq![entity], 0, n);
    let was = reached(fs, t, entity, n);
    let now = reached(fs, t, entity, n + 1);
    followed_holds(fs, t, was, level_start(fs, t, seq![entity], 0, n), was.len() as int);
    assert(was =~= now.subrange(0, was.len() as int));
}

proof fn leads_longer(fs: Seq<FactView>, t: Traversal, a: Seq<char>, b: Seq<char>, m: nat, n: nat)
    requires
        leads_within(fs, t, a, b, m),
        m <= n,
    ensures
        leads_within(fs, t, a, b, n),
    decreases m,
{
    if a != b {
        let k = choose|k: Seq<char>|
            leads_within(fs, t, a, k, (m - 1) as nat) && #[trigger] leads_to(fs, t, k, b);
        leads_longer(fs, t, a, k, (m - 1) as nat, (n - 1) as nat);
        assert(leads_within(fs, t, a, k, (n - 1) as nat) && leads_to(fs, t, k, b));
    }
}

proof fn level_facts(fs: Seq<FactView>, t: Traversal, entity: Seq<char>, n: nat)
    ensures
        reached(fs, t, entity, n).no_duplicates(),
        reached(fs, t, entity, n).len() > 0,
        reached(fs, t, entity, n)[0] == entity,
        0 <= level_start(fs, t, seq![entity], 0, n) <= reached(fs, t, entity, n).len(),
        forall|x: Seq<char>|
            reached(fs, t, entity, n).contains(x) <==> #[trigger] leads_within(
                fs,
                t,
                entity,
                x,
                n,
            ),
        closed_upto(
            fs,
            t,
            reached(fs, t, entity, n),
            level_start(fs, t, seq![entity], 0, n),
        ),
    decreases n,
{
    let start = seq![entity];
    if n == 0 {
        assert(reached(fs, t, entity, 0) == start);
        assert(start[0] == entity);
        assert forall|x: Seq<char>| start.contains(x) <==> #[trigger] leads_within(
            fs,
            t,
            entity,
            x,
            0,
        ) by {
            if start.contains(x) {
                let i = choose|i: int| 0 <= i < start.len() && start[i] == x;
            }
        }
    } else {
        let m = (n - 1) as nat;
        level_facts(fs, t, entity, m);
        level_grows(fs, t, start, 0, m);
        let was = reached(fs, t, entity, m);
        let from = level_start(fs, t, start, 0, m);
        let now = reached(fs, t, entity, n);
        followed_holds(fs, t, was, from, was.len() as int);
        assert(now == followed(fs, t, was, from, was.len() as int));
        assert forall|k: int| 0 <= k < was.len() implies now[k] == was[k] by {
            assert(now.take(was.len() as int)[k] == was[k]);
        }
        assert forall|k: int, b: Seq<char>|
            0 <= k < was.len() && k < now.len() && #[trigger] leads_to(fs, t, now[k], b) implies now.contains(
        b) by {
            assert(leads_to(fs, t, was[k], b));
            if k < from {
                assert(was.contains(b));
                let j = choose|j: int| 0 <= j < was.len() && was[j] == b;
                assert(now[j] == b);
            }
        }
        assert forall|x: Seq<char>| now.contains(x) <==> #[trigger] leads_within(
            fs,
            t,
            entity,
            x,
            n,
        ) by {
            if now.contains(x) {
                if was.contains(x) {
                    assert(leads_within(fs, t, entity, x, m));
                    leads_longer(fs, t, entity, x, m, n);
                } else {
                    let k = choose|k: int|
                        from <= k < was.len() && leads_to(fs, t, #[trigger] was[k], x);
                    assert(was.contains(was[k]));
                    assert(leads_within(fs, t, entity, was[k], m) && leads_to(fs, t, was[k], x));
                }
            }
            if leads_within(fs, t, entity, x, n) {
                if entity == x {
                    assert(now[0] == entity);
                } else {
                    let k = choose|k: Seq<char>|
                        leads_within(fs, t, entity, k, m) && #[trigger] leads_to(fs, t, k, x);
                    assert(was.contains(k));
                    let j = choose|j: int| 0 <= j < was.len() && was[j] == k;
                    assert(leads_to(fs, t, now[j], x));
                }
            }
        }
    }
}

// ── facts of a blueprint ───────────────────────────────────────────────────────────────

/// A lifecycle as it is written.
pub open spec fn lifecycle_name(l: Lifecycle) -> Seq<char> {
    match l {
        Lifecycle::Draft => "draft"@,
        Lifecycle::Locked => "locked"@,
        Lifecycle::Superseded => "superseded"@,
    }
}

/// A kind of witness as it is written.
pub open spec fn witness_kind_name(k: WitnessKind) -> Seq<char> {
    match k {
        WitnessKind::Static => "static"@,
        WitnessKind::Typecheck => "typecheck"@,
        WitnessKind::Schema => "schema"@,
        WitnessKind::Golden => "golden"@,
        WitnessKind::Property => "property"@,
        WitnessKind::Differential => "differential"@,
        WitnessKind::Abi => "abi"@,
        WitnessKind::Command => "command"@,
    }
}

/// A slot in JSON.
pub open spec fn slot_object(s: Slot) -> Seq<char> {
    "{\"id\":"@ + json_string(s.id@) + ",\"responsibility\":"@ + json_string(s.responsibility@)
        + ",\"invariants\":"@ + json_strings(texts(s.invariants@)) + ",\"allow_fusion\":"@
        + json_bool(s.allow_fusion) + "}"@
}

/// An implementation in JSON.
pub open spec fn implementation_object(m: Implementation) -> Seq<char> {
    "{\"id\":"@ + json_string(m.id@) + ",\"slots\":"@ + json_strings(texts(m.slots@))
        + ",\"bindings\":"@ + json_strings(texts(m.bindings@)) + ",\"variant_of\":"@ + json_maybe(
        text_opt(m.variant_of),
    ) + "}"@
}

/// An adapter in JSON.
pub open spec fn adapter_object(a: CompatibilityAdapter) -> Seq<char> {
    "{\"id\":"@ + json_string(a.id@) + ",\"from\":"@ + json_string(a.from@) + ",\"to\":"@
        + json_string(a.to@) + ",\"binding\":"@ + json_string(a.binding@) + ",\"witnesses\":"@
        + json_strings(texts(a.witnesses@)) + "}"@
}

/// A witness in JSON.
pub open spec fn witness_object(w: Witness) -> Seq<char> {
    "{\"id\":"@ + json_string(w.id@) + ",\"kind\":"@ + json_string(witness_kind_name(w.kind))
        + ",\"command\":"@ + json_string(w.command@) + ",\"covers\":"@ + json_strings(
        texts(w.covers@),
    ) + "}"@
}

/// The identity of a blueprint in JSON.
pub open spec fn meta_object(b: Blueprint) -> Seq<char> {
    "{\"id\":"@ + json_string(b.meta.id@) + ",\"lifecycle\":"@ + json_string(
        lifecycle_name(b.meta.lifecycle),
    ) + ",\"description\":"@ + json_string(b.meta.description@) + ",\"supersedes\":"@ + json_maybe(
        text_opt(b.meta.supersedes),
    ) + "}"@
}

/// A whole blueprint in JSON.
#[verifier::opaque]
pub open spec fn blueprint_json(b: Blueprint) -> Seq<char> {
    "{\"blueprint\":"@ + meta_object(b) + ",\"slot\":"@ + json_list(
        b.slots@.map_values(|s: Slot| slot_object(s)),
    ) + ",\"port\":"@ + json_list(b.ports@.map_values(|p: Port| port_json(p))) + ",\"flow\":"@
        + json_list(b.flows@.map_values(|f: Flow| flow_json(f))) + ",\"implementation\":"@
        + json_list(
        b.implementations@.map_values(|m: Implementation| implementation_object(m)),
    ) + ",\"adapter\":"@ + json_list(
        b.adapters@.map_values(|a: CompatibilityAdapter| adapter_object(a)),
    ) + ",\"witness\":"@ + json_list(b.witnesses@.map_values(|w: Witness| witness_object(w)))
        + "}"@
}

fn write_slots(b: &Blueprint) -> (r: String)
    ensures
        r@ == json_list(b.slots@.map_values(|s: Slot| slot_object(s))),
{
    let ghost goal = b.slots@.map_values(|s: Slot| slot_object(s));
    let mut out: Vec<String> = Vec::new();
    let mut i: usize = 0;
    while i < b.slots.len()
        invariant
            i <= b.slots.len(),
            goal == b.slots@.map_values(|s: Slot| slot_object(s)),
            texts(out@) =~= goal.take(i as int),
        decreases b.slots.len() - i,
    {
        let s = &b.slots[i];
        let mut t = cat7(
            "{\"id\":",
            quote(s.id.as_str()).as_str(),
            ",\"responsibility\":",
            quote(s.responsibility.as_str()).as_str(),
            ",\"invariants\":",
            list_of_strings(&s.invariants).as_str(),
            ",\"allow_fusion\":",
        );
        t.append(truth(s.allow_fusion).as_str());
        t.append("}");
        put(&mut out, t);
        assert(goal.take(i + 1) =~= goal.take(i as int).push(goal[i as int]));
        i += 1;
    }
    assert(goal.take(goal.len() as int) =~= goal);
    list(&out)
}

#[verifier::spinoff_prover]
#[verifier::rlimit(40)]
fn write_all_ports(b: &Blueprint) -> (r: String)
    ensures
        r@ == json_list(b.ports@.map_values(|p: Port| port_json(p))),
{
    let ghost goal = b.ports@.map_values(|p: Port| port_json(p));
    let mut out: Vec<String> = Vec::new();
    let mut i: usize = 0;
    while i < b.ports.len()
        invariant
            i <= b.ports.len(),
            goal == b.ports@.map_values(|p: Port| port_json(p)),
            texts(out@) =~= goal.take(i as int),
        decreases b.ports.len() - i,
    {
        put(&mut out, write_port(&b.ports[i]));
        assert(goal.take(i + 1) =~= goal.take(i as int).push(goal[i as int]));
        i += 1;
    }
    assert(goal.take(goal.len() as int) =~= goal);
    list(&out)
}

fn write_all_flows(b: &Blueprint) -> (r: String)
    ensures
        r@ == json_list(b.flows@.map_values(|f: Flow| flow_json(f))),
{
    let ghost goal = b.flows@.map_values(|f: Flow| flow_json(f));
    let mut out: Vec<String> = Vec::new();
    let mut i: usize = 0;
    while i < b.flows.len()
        invariant
            i <= b.flows.len(),
            goal == b.flows@.map_values(|f: Flow| flow_json(f)),
            texts(out@) =~= goal.take(i as int),
        decreases b.flows.len() - i,
    {
        put(&mut out, write_flow(&b.flows[i]));
        assert(goal.take(i + 1) =~= goal.take(i as int).push(goal[i as int]));
        i += 1;
    }
    assert(goal.take(goal.len() as int) =~= goal);
    list(&out)
}

fn write_implementations(b: &Blueprint) -> (r: String)
    ensures
        r@ == json_list(
            b.implementations@.map_values(|m: Implementation| implementation_object(m)),
        ),
{
    let ghost goal = b.implementations@.map_values(|m: Implementation| implementation_object(m));
    let mut out: Vec<String> = Vec::new();
    let mut i: usize = 0;
    while i < b.implementations.len()
        invariant
            i <= b.implementations.len(),
            goal == b.implementations@.map_values(
                |m: Implementation| implementation_object(m),
            ),
            texts(out@) =~= goal.take(i as int),
        decreases b.implementations.len() - i,
    {
        let m = &b.implementations[i];
        let mut t = cat7(
            "{\"id\":",
            quote(m.id.as_str()).as_str(),
            ",\"slots\":",
            list_of_strings(&m.slots).as_str(),
            ",\"bindings\":",
            list_of_strings(&m.bindings).as_str(),
            ",\"variant_of\":",
        );
        t.append(maybe(&m.variant_of).as_str());
        t.append("}");
        put(&mut out, t);
        assert(goal.take(i + 1) =~= goal.take(i as int).push(goal[i as int]));
        i += 1;
    }
    assert(goal.take(goal.len() as int) =~= goal);
    list(&out)
}

fn write_adapters(b: &Blueprint) -> (r: String)
    ensures
        r@ == json_list(b.adapters@.map_values(|a: CompatibilityAdapter| adapter_object(a))),
{
    let ghost goal = b.adapters@.map_values(|a: CompatibilityAdapter| adapter_object(a));
    let mut out: Vec<String> = Vec::new();
    let mut i: usize = 0;
    while i < b.adapters.len()
        invariant
            i <= b.adapters.len(),
            goal == b.adapters@.map_values(|a: CompatibilityAdapter| adapter_object(a)),
            texts(out@) =~= goal.take(i as int),
        decreases b.adapters.len() - i,
    {
        let a = &b.adapters[i];
        let mut t = cat7(
            "{\"id\":",
            quote(a.id.as_str()).as_str(),
            ",\"from\":",
            quote(a.from.as_str()).as_str(),
            ",\"to\":",
            quote(a.to.as_str()).as_str(),
            ",\"binding\":",
        );
        t.append(quote(a.binding.as_str()).as_str());
        t.append(",\"witnesses\":");
        t.append(list_of_strings(&a.witnesses).as_str());
        t.append("}");
        put(&mut out, t);
        assert(goal.take(i + 1) =~= goal.take(i as int).push(goal[i as int]));
        i += 1;
    }
    assert(goal.take(goal.len() as int) =~= goal);
    list(&out)
}

/// A kind of witness as it is written.
pub fn witness_kind_text(k: WitnessKind) -> (r: &'static str)
    ensures
        r@ == witness_kind_name(k),
{
    match k {
        WitnessKind::Static => "static",
        WitnessKind::Typecheck => "typecheck",
        WitnessKind::Schema => "schema",
        WitnessKind::Golden => "golden",
        WitnessKind::Property => "property",
        WitnessKind::Differential => "differential",
        WitnessKind::Abi => "abi",
        WitnessKind::Command => "command",
    }
}

fn write_witnesses(b: &Blueprint) -> (r: String)
    ensures
        r@ == json_list(b.witnesses@.map_values(|w: Witness| witness_object(w))),
{
    let ghost goal = b.witnesses@.map_values(|w: Witness| witness_object(w));
    let mut out: Vec<String> = Vec::new();
    let mut i: usize = 0;
    while i < b.witnesses.len()
        invariant
            i <= b.witnesses.len(),
            goal == b.witnesses@.map_values(|w: Witness| witness_object(w)),
            texts(out@) =~= goal.take(i as int),
        decreases b.witnesses.len() - i,
    {
        let w = &b.witnesses[i];
        let mut t = cat7(
            "{\"id\":",
            quote(w.id.as_str()).as_str(),
            ",\"kind\":",
            quote(witness_kind_text(w.kind)).as_str(),
            ",\"command\":",
            quote(w.command.as_str()).as_str(),
            ",\"covers\":",
        );
        t.append(list_of_strings(&w.covers).as_str());
        t.append("}");
        put(&mut out, t);
        assert(goal.take(i + 1) =~= goal.take(i as int).push(goal[i as int]));
        i += 1;
    }
    assert(goal.take(goal.len() as int) =~= goal);
    list(&out)
}

/// A lifecycle as it is written.
pub fn lifecycle_text(l: Lifecycle) -> (r: &'static str)
    ensures
        r@ == lifecycle_name(l),
{
    match l {
        Lifecycle::Draft => "draft",
        Lifecycle::Locked => "locked",
        Lifecycle::Superseded => "superseded",
    }
}

fn write_meta(b: &Blueprint) -> (r: String)
    ensures
        r@ == meta_object(*b),
{
    let mut t = cat7(
        "{\"id\":",
        quote(b.meta.id.as_str()).as_str(),
        ",\"lifecycle\":",
        quote(lifecycle_text(b.meta.lifecycle)).as_str(),
        ",\"description\":",
        quote(b.meta.description.as_str()).as_str(),
        ",\"supersedes\":",
    );
    t.append(maybe(&b.meta.supersedes).as_str());
    t.append("}");
    t
}

/// Writes a whole blueprint in JSON.
pub fn write_blueprint(b: &Blueprint) -> (r: String)
    ensures
        r@ == blueprint_json(*b),
{
    reveal(blueprint_json);
    let mut t = cat7(
        "{\"blueprint\":",
        write_meta(b).as_str(),
        ",\"slot\":",
        write_slots(b).as_str(),
        ",\"port\":",
        write_all_ports(b).as_str(),
        ",\"flow\":",
    );
    t.append(write_all_flows(b).as_str());
    t.append(",\"implementation\":");
    t.append(write_implementations(b).as_str());
    t.append(",\"adapter\":");
    t.append(write_adapters(b).as_str());
    t.append(",\"witness\":");
    t.append(write_witnesses(b).as_str());
    t.append("}");
    t
}

/// The name of a part of a blueprint.
pub open spec fn part_name(b: Blueprint, kind: Seq<char>, id: Seq<char>) -> Seq<char> {
    b.meta.id@ + "#"@ + kind + "/"@ + id
}

/// A fact that relates two entities of a blueprint.
pub open spec fn part_fact(
    b: Blueprint,
    locator: Seq<char>,
    subject: Seq<char>,
    predicate: Seq<char>,
    object: Seq<char>,
) -> FactView {
    FactView {
        subject,
        predicate,
        object: ObjectView::Entity(object),
        attributes: seq![],
        adapter: "bonsai-blueprint"@,
        locator,
        digest: digest(blueprint_json(b)),
    }
}

/// That a slot belongs to the blueprint.
pub open spec fn slot_fact(b: Blueprint, locator: Seq<char>) -> spec_fn(int) -> Seq<FactView> {
    |i: int|
        seq![
            part_fact(
                b,
                locator,
                part_name(b, "slot"@, b.slots@[i].id@),
                "member-of"@,
                b.meta.id@,
            ),
        ]
}

/// That a port belongs to its slot.
pub open spec fn port_fact(b: Blueprint, locator: Seq<char>) -> spec_fn(int) -> Seq<FactView> {
    |i: int|
        seq![
            part_fact(
                b,
                locator,
                part_name(b, "port"@, b.ports@[i].id@),
                "member-of"@,
                part_name(b, "slot"@, b.ports@[i].slot@),
            ),
        ]
}

/// That the slot at the end of a flow depends on the slot at its beginning.
pub open spec fn flow_fact(b: Blueprint, locator: Seq<char>) -> spec_fn(int) -> Seq<FactView> {
    |i: int|
        match (b.port(b.flows@[i].from@), b.port(b.flows@[i].to@)) {
            (Some(from), Some(to)) => seq![
                part_fact(
                    b,
                    locator,
                    part_name(b, "slot"@, to.slot@),
                    "depends-on"@,
                    part_name(b, "slot"@, from.slot@),
                ),
            ],
            _ => seq![],
        }
}

/// That an implementation realizes a slot.
pub open spec fn slot_realized(b: Blueprint, locator: Seq<char>, m: Implementation) -> spec_fn(
    int,
) -> Seq<FactView> {
    |k: int|
        seq![
            part_fact(
                b,
                locator,
                part_name(b, "implementation"@, m.id@),
                "realizes"@,
                part_name(b, "slot"@, m.slots@[k]@),
            ),
        ]
}

/// That an implementation realizes its slots.
pub open spec fn implementation_facts(b: Blueprint, locator: Seq<char>) -> spec_fn(int) -> Seq<
    FactView,
> {
    |i: int|
        gather(
            b.implementations@[i].slots@.len() as int,
            slot_realized(b, locator, b.implementations@[i]),
        )
}

/// All facts of a blueprint, as they come.
pub open spec fn blueprint_facts(b: Blueprint, locator: Seq<char>) -> Seq<FactView> {
    gather(b.slots@.len() as int, slot_fact(b, locator)) + gather(
        b.ports@.len() as int,
        port_fact(b, locator),
    ) + gather(b.flows@.len() as int, flow_fact(b, locator)) + gather(
        b.implementations@.len() as int,
        implementation_facts(b, locator),
    )
}

fn name_part(b: &Blueprint, kind: &str, id: &str) -> (r: String)
    ensures
        r@ == part_name(*b, kind@, id@),
{
    cat5(b.meta.id.as_str(), "#", kind, "/", id)
}

fn add_fact(
    source: &SourceRef,
    subject: String,
    predicate: &str,
    object: String,
    out: &mut Vec<Fact>,
)
    ensures
        fact_views(final(out)@) == fact_views(old(out)@).push(
            FactView {
                subject: subject@,
                predicate: predicate@,
                object: ObjectView::Entity(object@),
                attributes: seq![],
                adapter: source.adapter@,
                locator: source.locator@,
                digest: source.digest@,
            },
        ),
{
    let ghost before = fact_views(out@);
    let f = Fact {
        subject,
        predicate: predicate.to_owned(),
        object: FactObject::Entity(object),
        attributes: Table::new(),
        source: source.copy(),
    };
    assert(attribute_views(f.attributes@) =~= seq![]);
    assert(fact_views(out@.push(f)) =~= before.push(f@));
    out.push(f);
}

/// Whether a source is the blueprint.
spec fn blueprint_source(b: Blueprint, locator: Seq<char>, s: SourceRef) -> bool {
    s.adapter@ == "bonsai-blueprint"@ && s.locator@ == locator && s.digest@ == digest(
        blueprint_json(b),
    )
}

fn add_member_facts(
    b: &Blueprint,
    source: &SourceRef,
    out: &mut Vec<Fact>,
    Ghost(locator): Ghost<Seq<char>>,
)
    requires
        blueprint_source(*b, locator, *source),
    ensures
        fact_views(final(out)@) == fact_views(old(out)@) + gather(
            b.slots@.len() as int,
            slot_fact(*b, locator),
        ) + gather(b.ports@.len() as int, port_fact(*b, locator)),
{
    let ghost base = fact_views(out@);
    let mut i: usize = 0;
    while i < b.slots.len()
        invariant
            i <= b.slots.len(),
            blueprint_source(*b, locator, *source),
            fact_views(out@) =~= base + gather(i as int, slot_fact(*b, locator)),
        decreases b.slots.len() - i,
    {
        add_fact(
            source,
            name_part(b, "slot", b.slots[i].id.as_str()),
            "member-of",
            b.meta.id.clone(),
            out,
        );
        i += 1;
    }
    let ghost base = fact_views(out@);
    let mut i: usize = 0;
    while i < b.ports.len()
        invariant
            i <= b.ports.len(),
            blueprint_source(*b, locator, *source),
            fact_views(out@) =~= base + gather(i as int, port_fact(*b, locator)),
        decreases b.ports.len() - i,
    {
        add_fact(
            source,
            name_part(b, "port", b.ports[i].id.as_str()),
            "member-of",
            name_part(b, "slot", b.ports[i].slot.as_str()),
            out,
        );
        i += 1;
    }
}

fn add_flow_facts(
    b: &Blueprint,
    source: &SourceRef,
    out: &mut Vec<Fact>,
    Ghost(locator): Ghost<Seq<char>>,
)
    requires
        blueprint_source(*b, locator, *source),
    ensures
        fact_views(final(out)@) == fact_views(old(out)@) + gather(
            b.flows@.len() as int,
            flow_fact(*b, locator),
        ),
{
    let ghost base = fact_views(out@);
    let mut i: usize = 0;
    while i < b.flows.len()
        invariant
            i <= b.flows.len(),
            blueprint_source(*b, locator, *source),
            fact_views(out@) =~= base + gather(i as int, flow_fact(*b, locator)),
        decreases b.flows.len() - i,
    {
        match (
            b.find_port(b.flows[i].from.as_str()),
            b.find_port(b.flows[i].to.as_str()),
        ) {
            (Some(from), Some(to)) => {
                add_fact(
                    source,
                    name_part(b, "slot", to.slot.as_str()),
                    "depends-on",
                    name_part(b, "slot", from.slot.as_str()),
                    out,
                );
            },
            _ => {},
        }
        i += 1;
    }
}

fn add_realized(
    b: &Blueprint,
    m: &Implementation,
    source: &SourceRef,
    out: &mut Vec<Fact>,
    Ghost(locator): Ghost<Seq<char>>,
)
    requires
        blueprint_source(*b, locator, *source),
    ensures
        fact_views(final(out)@) == fact_views(old(out)@) + gather(
            m.slots@.len() as int,
            slot_realized(*b, locator, *m),
        ),
{
    let ghost base = fact_views(out@);
    let mut k: usize = 0;
    while k < m.slots.len()
        invariant
            k <= m.slots.len(),
            blueprint_source(*b, locator, *source),
            fact_views(out@) =~= base + gather(k as int, slot_realized(*b, locator, *m)),
        decreases m.slots.len() - k,
    {
        add_fact(
            source,
            name_part(b, "implementation", m.id.as_str()),
            "realizes",
            name_part(b, "slot", m.slots[k].as_str()),
            out,
        );
        k += 1;
    }
}

/// The facts of a blueprint, in order and each once: what belongs to what, which slot depends on
/// which by the flows, and which slots are realized. Each names the blueprint as its source, and
/// where it was found.
pub fn facts_from_blueprint(blueprint: &Blueprint, locator: &str) -> (r: Vec<Fact>)
    ensures
        fact_views(r@) == canonical(blueprint_facts(*blueprint, locator@)),
{
    let b = blueprint;
    let source = SourceRef {
        adapter: "bonsai-blueprint".to_owned(),
        locator: locator.to_owned(),
        digest: digest_of(write_blueprint(b).as_str()),
    };
    let mut out: Vec<Fact> = Vec::new();
    assert(fact_views(out@) =~= Seq::<FactView>::empty());
    add_member_facts(b, &source, &mut out, Ghost(locator@));
    add_flow_facts(b, &source, &mut out, Ghost(locator@));
    let ghost base = fact_views(out@);
    let mut i: usize = 0;
    while i < b.implementations.len()
        invariant
            i <= b.implementations.len(),
            blueprint_source(*b, locator@, source),
            fact_views(out@) =~= base + gather(i as int, implementation_facts(*b, locator@)),
        decreases b.implementations.len() - i,
    {
        add_realized(b, &b.implementations[i], &source, &mut out, Ghost(locator@));
        i += 1;
    }
    assert(fact_views(out@) =~= blueprint_facts(*b, locator@));
    sorted_facts(out)
}

// ── facts of a code graph ──────────────────────────────────────────────────────────────

/// What a fact says beside where a symbol is defined.
pub open spec fn symbol_attributes(s: SymView) -> Seq<(Seq<char>, Seq<char>)> {
    seq![
        ("display"@, s.display),
        ("implementation"@, json_bool(s.is_impl)),
        ("kind"@, dec_int(s.kind as int)),
        ("line"@, dec_int(s.def.sl + 1)),
    ]
}

/// Where a symbol is defined.
pub open spec fn symbol_fact(
    rows: Seq<(Seq<char>, Sym)>,
    locator: Seq<char>,
    digest: Seq<char>,
) -> spec_fn(int) -> Seq<FactView> {
    |i: int|
        seq![
            FactView {
                subject: "scip:symbol/"@ + rows[i].0,
                predicate: "defined-in"@,
                object: ObjectView::Entity("scip:file/"@ + rows[i].1@.file),
                attributes: symbol_attributes(rows[i].1@),
                adapter: "scip"@,
                locator,
                digest,
            },
        ]
}

/// That what stands at `from` depends on one of its targets.
pub open spec fn target_fact(
    prefix: Seq<char>,
    from: Seq<char>,
    targets: Seq<(Seq<char>, ())>,
    locator: Seq<char>,
    digest: Seq<char>,
) -> spec_fn(int) -> Seq<FactView> {
    |k: int|
        seq![
            FactView {
                subject: prefix + from,
                predicate: "depends-on"@,
                object: ObjectView::Entity(prefix + targets[k].0),
                attributes: seq![],
                adapter: "scip"@,
                locator,
                digest,
            },
        ]
}

/// What the thing at a row depends on.
pub open spec fn target_facts(
    prefix: Seq<char>,
    rows: Seq<(Seq<char>, Names)>,
    locator: Seq<char>,
    digest: Seq<char>,
) -> spec_fn(int) -> Seq<FactView> {
    |i: int|
        gather(
            rows[i].1@.len() as int,
            target_fact(prefix, rows[i].0, rows[i].1@, locator, digest),
        )
}

/// All facts of a code graph, as they come.
pub open spec fn graph_facts(g: CodeGraph, locator: Seq<char>, digest: Seq<char>) -> Seq<FactView> {
    gather(g.symbols@.len() as int, symbol_fact(g.symbols@, locator, digest)) + gather(
        g.refs@.len() as int,
        target_facts("scip:symbol/"@, g.refs@, locator, digest),
    ) + gather(
        g.file_deps@.len() as int,
        target_facts("scip:file/"@, g.file_deps@, locator, digest),
    )
}

/// A name comes before another that starts with a later letter.
proof fn first_letter_orders(a: Seq<char>, b: Seq<char>)
    requires
        a.len() > 0,
        b.len() > 0,
        (a[0] as u32) < (b[0] as u32),
    ensures
        before(name_rank(false, a), name_rank(false, b)),
{
    assert(name_rank(false, a)[0] == char_rank(false, a, 0));
    assert(name_rank(false, b)[0] == char_rank(false, b, 0));
    assert(before_from(name_rank(false, a), name_rank(false, b), 0));
}

fn list_attributes(s: &Sym) -> (r: Table<String, false>)
    ensures
        attribute_views(r@) == symbol_attributes(s@),
{
    let display = s.display.clone();
    let kind = decimal_i64(s.kind as i64);
    let line = decimal_i64(s.def.sl as i64 + 1);
    let implementation = truth(s.is_impl);
    let ghost goal: Seq<(Seq<char>, String)> = seq![
        ("display"@, display),
        ("implementation"@, implementation),
        ("kind"@, kind),
        ("line"@, line),
    ];
    let mut t: Table<String, false> = Table::new();
    let ghost t0 = t@;
    t.insert("display".to_owned(), display);
    let ghost t1 = t@;
    t.insert("kind".to_owned(), kind);
    let ghost t2 = t@;
    t.insert("line".to_owned(), line);
    let ghost t3 = t@;
    t.insert("implementation".to_owned(), implementation);
    proof {
        reveal_strlit("display");
        reveal_strlit("implementation");
        reveal_strlit("kind");
        reveal_strlit("line");
        use_type_invariant(&t);
        first_letter_orders("display"@, "implementation"@);
        first_letter_orders("display"@, "kind"@);
        first_letter_orders("display"@, "line"@);
        first_letter_orders("implementation"@, "kind"@);
        first_letter_orders("implementation"@, "line"@);
        first_letter_orders("kind"@, "line"@);
        assert(in_order(false, goal));
        row_unique(false, goal, 0);
        row_unique(false, goal, 1);
        row_unique(false, goal, 2);
        row_unique(false, goal, 3);
        assert forall|k: Seq<char>| #[trigger] named(t@, k) <==> named(goal, k) by {
            if named(goal, k) {
                let j = row_of(goal, k)->0;
                assert(0 <= j < 4);
            }
            assert(named(t@, k) <==> k == "implementation"@ || named(t3, k));
            assert(named(t3, k) <==> k == "line"@ || named(t2, k));
            assert(named(t2, k) <==> k == "kind"@ || named(t1, k));
            assert(named(t1, k) <==> k == "display"@ || named(t0, k));
        }
        rows_unique(t@, goal);
        assert(attribute_views(goal) =~= symbol_attributes(s@));
    }
    t
}

fn add_symbol_facts(graph: &CodeGraph, source: &SourceRef, out: &mut Vec<Fact>)
    requires
        source.adapter@ == "scip"@,
    ensures
        fact_views(final(out)@) == fact_views(old(out)@) + gather(
            graph.symbols@.len() as int,
            symbol_fact(graph.symbols@, source.locator@, source.digest@),
        ),
{
    let ghost base = fact_views(out@);
    let ghost rows = graph.symbols@;
    let mut i: usize = 0;
    while i < graph.symbols.len()
        invariant
            i <= rows.len(),
            rows == graph.symbols@,
            source.adapter@ == "scip"@,
            fact_views(out@) =~= base + gather(
                i as int,
                symbol_fact(rows, source.locator@, source.digest@),
            ),
        decreases rows.len() - i,
    {
        let ghost before = fact_views(out@);
        let s = graph.symbols.value(i);
        let f = Fact {
            subject: cat2("scip:symbol/", graph.symbols.name(i).as_str()),
            predicate: "defined-in".to_owned(),
            object: FactObject::Entity(cat2("scip:file/", s.file.as_str())),
            attributes: list_attributes(s),
            source: source.copy(),
        };
        assert(fact_views(out@.push(f)) =~= before.push(f@));
        out.push(f);
        assert((symbol_fact(rows, source.locator@, source.digest@))(i as int) =~= seq![f@]);
        i += 1;
    }
}

fn add_targets(
    prefix: &str,
    from: &str,
    targets: &Names,
    source: &SourceRef,
    out: &mut Vec<Fact>,
)
    requires
        source.adapter@ == "scip"@,
    ensures
        fact_views(final(out)@) == fact_views(old(out)@) + gather(
            targets@.len() as int,
            target_fact(prefix@, from@, targets@, source.locator@, source.digest@),
        ),
{
    let ghost base = fact_views(out@);
    let mut k: usize = 0;
    while k < targets.len()
        invariant
            k <= targets@.len(),
            source.adapter@ == "scip"@,
            fact_views(out@) =~= base + gather(
                k as int,
                target_fact(prefix@, from@, targets@, source.locator@, source.digest@),
            ),
        decreases targets@.len() - k,
    {
        add_fact(
            source,
            cat2(prefix, from),
            "depends-on",
            cat2(prefix, targets.name(k).as_str()),
            out,
        );
        k += 1;
    }
}

fn add_all_targets(
    prefix: &str,
    t: &Table<Names, false>,
    source: &SourceRef,
    out: &mut Vec<Fact>,
)
    requires
        source.adapter@ == "scip"@,
    ensures
        fact_views(final(out)@) == fact_views(old(out)@) + gather(
            t@.len() as int,
            target_facts(prefix@, t@, source.locator@, source.digest@),
        ),
{
    let ghost base = fact_views(out@);
    let mut i: usize = 0;
    while i < t.len()
        invariant
            i <= t@.len(),
            source.adapter@ == "scip"@,
            fact_views(out@) =~= base + gather(
                i as int,
                target_facts(prefix@, t@, source.locator@, source.digest@),
            ),
        decreases t@.len() - i,
    {
        add_targets(prefix, t.name(i).as_str(), t.value(i), source, out);
        i += 1;
    }
}

/// The facts of a code graph, in order and each once: where each symbol is defined, and which
/// symbols and files depend on which. Each names the index as its source, where it was found and
/// its digest.
pub fn facts_from_scip(graph: &CodeGraph, locator: &str, digest: &str) -> (r: Vec<Fact>)
    ensures
        fact_views(r@) == canonical(graph_facts(*graph, locator@, digest@)),
{
    let source = SourceRef {
        adapter: "scip".to_owned(),
        locator: locator.to_owned(),
        digest: digest.to_owned(),
    };
    let mut out: Vec<Fact> = Vec::new();
    assert(fact_views(out@) =~= Seq::<FactView>::empty());
    add_symbol_facts(graph, &source, &mut out);
    add_all_targets("scip:symbol/", &graph.refs, &source, &mut out);
    add_all_targets("scip:file/", &graph.file_deps, &source, &mut out);
    assert(fact_views(out@) =~= graph_facts(*graph, locator@, digest@));
    sorted_facts(out)
}

} // verus!
