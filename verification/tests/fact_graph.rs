//! Facts, snapshots of them, and questions about them.
use bonsai::blueprint::{
    Blueprint, BlueprintMeta, CompatibilityPolicy, Direction, Flow, Implementation, Lifecycle, Port,
    Slot,
};
use bonsai::digest::{digest_of, digest_of_bytes};
use bonsai::facts::{
    answer, canonical_list, facts_from_blueprint, facts_from_scip, is_ref_name, make_snapshot,
    require_known, resolved, rows_to_add, write_blueprint, write_fact, BqlError, BqlQuery, Fact,
    FactObject, FactStore, Snapshot, SourceRef, Traversal,
};
use bonsai::order::{link, Table};
use bonsai::scip::{CodeGraph, Range, Sym};

fn edge(subject: &str, predicate: &str, object: &str) -> Fact {
    Fact {
        subject: subject.into(),
        predicate: predicate.into(),
        object: FactObject::Entity(object.into()),
        attributes: Table::new(),
        source: SourceRef {
            adapter: "test".into(),
            locator: "fixture".into(),
            digest: "b3:test".into(),
        },
    }
}

/// A store in memory: rows by snapshot, and names of snapshots.
#[derive(Default)]
struct MemoryStore {
    rows: std::cell::RefCell<std::collections::BTreeMap<String, Vec<String>>>,
    refs: std::cell::RefCell<std::collections::BTreeMap<String, String>>,
}

impl FactStore for MemoryStore {
    fn is_known(&self, snapshot_id: &str) -> Result<bool, String> {
        Ok(self.rows.borrow().contains_key(snapshot_id))
    }

    fn put_snapshot(&self, snapshot: &Snapshot, facts: &Vec<Fact>) -> Result<(), String> {
        let known = self.is_known(&snapshot.id)?;
        let mut rows = self.rows.borrow_mut();
        rows.entry(snapshot.id.clone())
            .or_default()
            .extend(rows_to_add(known, facts));
        Ok(())
    }

    fn load_facts(&self, snapshot_id: &str) -> Result<Vec<Fact>, String> {
        let rows = self.rows.borrow();
        Ok(rows[snapshot_id].iter().map(|row| read_edge(row)).collect())
    }

    fn ref_target(&self, name: &str) -> Result<Option<String>, String> {
        Ok(self.refs.borrow().get(name).cloned())
    }

    fn put_ref(&self, name: &str, snapshot_id: &str) -> Result<(), String> {
        if !self.is_known(snapshot_id)? {
            return Err("no such snapshot".to_string());
        }
        self.refs
            .borrow_mut()
            .insert(name.to_string(), snapshot_id.to_string());
        Ok(())
    }
}

/// Reads an edge back from the row that it was written to.
fn read_edge(row: &str) -> Fact {
    let v: serde_json::Value = serde_json::from_str(row).unwrap();
    edge(
        v["subject"].as_str().unwrap(),
        v["predicate"].as_str().unwrap(),
        v["object"]["value"].as_str().unwrap(),
    )
}

#[test]
fn snapshots_are_immutable_deduplicated_and_queryable() {
    let facts = vec![
        edge("api", "depends-on", "service"),
        edge("service", "depends-on", "database"),
        edge("api", "depends-on", "service"),
    ];
    let store = MemoryStore::default();
    let first = store.create_snapshot(None, &facts).unwrap();
    let same = store.create_snapshot(None, &facts).unwrap();
    assert_eq!(first.id, same.id, "content-addressed snapshots deduplicate");
    assert_eq!(store.facts(&first.id).unwrap().len(), 2);
    assert_eq!(first.fact_count, 2);

    let dependencies = store
        .query(
            &first.id,
            &BqlQuery::parse("DEPENDENCIES api DEPTH 2").unwrap(),
        )
        .unwrap();
    assert_eq!(dependencies.entities, vec!["service", "database"]);

    let impact = store
        .query(
            &first.id,
            &BqlQuery::parse("IMPACT database DEPTH 2").unwrap(),
        )
        .unwrap();
    assert_eq!(impact.entities, vec!["service", "api"]);
    assert_eq!(impact.supporting_facts.len(), 2);
}

#[test]
fn snapshot_parent_changes_identity_and_history_is_preserved() {
    let store = MemoryStore::default();
    let old = store
        .create_snapshot(None, &vec![edge("api", "depends-on", "v1")])
        .unwrap();
    let new = store
        .create_snapshot(Some(&old.id), &vec![edge("api", "depends-on", "v2")])
        .unwrap();
    assert_ne!(old.id, new.id);
    assert_eq!(new.parent_id, Some(old.id.clone()));
    assert_eq!(
        store.facts(&old.id).unwrap()[0].object,
        FactObject::Entity("v1".into())
    );
    assert_eq!(
        store.facts(&new.id).unwrap()[0].object,
        FactObject::Entity("v2".into())
    );
    let unrelated = store
        .create_snapshot(None, &vec![edge("api", "depends-on", "v2")])
        .unwrap();
    assert_ne!(new.id, unrelated.id);
}

#[test]
fn the_order_of_facts_does_not_matter() {
    let a = vec![edge("x", "depends-on", "y"), edge("a", "depends-on", "b")];
    let b = vec![
        edge("a", "depends-on", "b"),
        edge("x", "depends-on", "y"),
        edge("a", "depends-on", "b"),
    ];
    assert_eq!(make_snapshot(&None, &a).0.id, make_snapshot(&None, &b).0.id);
    assert_eq!(canonical_list(&b)[0].subject, "a");
}

#[test]
fn every_part_of_a_fact_counts() {
    let id = |f: Fact| make_snapshot(&None, &vec![f]).0.id;
    let base = id(edge("a", "p", "b"));
    let with = |object: FactObject| {
        let mut f = edge("a", "p", "b");
        f.object = object;
        id(f)
    };
    let ids = vec![
        base.clone(),
        id(edge("x", "p", "b")),
        id(edge("a", "q", "b")),
        with(FactObject::Text("b".into())),
        with(FactObject::Integer(12)),
        with(FactObject::Integer(-12)),
        with(FactObject::Boolean(true)),
        with(FactObject::Boolean(false)),
        {
            let mut f = edge("a", "p", "b");
            f.attributes.insert("k".into(), "v".into());
            id(f)
        },
        {
            let mut f = edge("a", "p", "b");
            f.source.locator = "elsewhere".into();
            id(f)
        },
    ];
    for i in 0..ids.len() {
        for j in 0..i {
            assert_ne!(ids[i], ids[j], "{i} {j}");
        }
    }
    // what was stored can be stored again
    let (first, facts) = make_snapshot(&None, &vec![edge("b", "p", "c"), edge("a", "p", "b")]);
    assert_eq!(make_snapshot(&None, &facts).0.id, first.id);
}

#[test]
fn bql_rejects_ambiguous_or_unbounded_queries() {
    assert!(BqlQuery::parse("IMPACT database").is_err());
    assert!(BqlQuery::parse("IMPACT database DEPTH 0").is_err());
    assert!(BqlQuery::parse("DELETE EVERYTHING DEPTH 2").is_err());
}

#[test]
fn bql_says_what_is_wrong() {
    assert_eq!(
        BqlQuery::parse("IMPACT database").unwrap_err(),
        BqlError::Syntax
    );
    assert_eq!(
        BqlQuery::parse("DELETE EVERYTHING DEPTH 2").unwrap_err(),
        BqlError::Traversal("DELETE".into())
    );
    assert_eq!(
        BqlQuery::parse("IMPACT db DEPTH two").unwrap_err(),
        BqlError::NotInteger
    );
    assert_eq!(
        BqlQuery::parse("IMPACT db DEPTH 65").unwrap_err(),
        BqlError::OutOfRange
    );
    for e in [
        BqlError::Syntax,
        BqlError::Traversal("X".into()),
        BqlError::NotInteger,
        BqlError::OutOfRange,
    ] {
        assert!(!e.message().is_empty());
    }
    let q = BqlQuery::parse("  impact   db depth 64 ").unwrap();
    assert_eq!(q.traversal, Traversal::Impact);
    assert_eq!((q.entity.as_str(), q.depth), ("db", 64));
}

#[test]
fn the_depth_bounds_what_is_found() {
    let facts = vec![
        edge("a", "depends-on", "b"),
        edge("b", "depends-on", "c"),
        edge("c", "depends-on", "a"),
        edge("a", "member-of", "z"),
    ];
    let ask = |n: usize| {
        answer(
            &facts,
            &BqlQuery {
                traversal: Traversal::Dependencies,
                entity: "a".into(),
                depth: n,
            },
        )
    };
    assert!(ask(0).entities.is_empty() && ask(0).supporting_facts.is_empty());
    assert_eq!(ask(1).entities, vec!["b"]);
    assert_eq!(ask(2).entities, vec!["b", "c"]);
    assert_eq!(ask(9).entities, vec!["b", "c"], "round and round adds nothing");
    assert_eq!(ask(2).supporting_facts.len(), 2);
    assert_eq!(ask(3).supporting_facts.len(), 3);
}

fn pipeline() -> Blueprint {
    let slot = |id: &str| Slot {
        id: id.into(),
        responsibility: String::new(),
        invariants: vec![],
        allow_fusion: false,
    };
    let port = |id: &str, slot: &str, direction: Direction| Port {
        id: id.into(),
        slot: slot.into(),
        direction,
        schema: "Records/v1".into(),
        version: String::new(),
        compatibility: CompatibilityPolicy::Internal,
    };
    Blueprint {
        meta: BlueprintMeta {
            id: "pipeline.v1".into(),
            lifecycle: Lifecycle::Draft,
            description: String::new(),
            supersedes: None,
        },
        slots: vec![slot("ingest"), slot("process")],
        ports: vec![
            port("records", "ingest", Direction::Output),
            port("input", "process", Direction::Input),
        ],
        flows: vec![Flow {
            from: "records".into(),
            to: "input".into(),
            stateful: false,
            optional: false,
        }],
        implementations: vec![],
        adapters: vec![],
        witnesses: vec![],
    }
}

#[test]
fn blueprint_adapter_exposes_logical_dependencies_with_provenance() {
    let facts = facts_from_blueprint(&pipeline(), "architecture/pipeline.toml");
    assert!(facts.iter().any(|fact| {
        fact.subject == "pipeline.v1#slot/process"
            && fact.predicate == "depends-on"
            && fact.object == FactObject::Entity("pipeline.v1#slot/ingest".into())
            && fact.source.locator == "architecture/pipeline.toml"
    }));
}

#[test]
fn facts_of_a_blueprint_name_their_source() {
    let mut b = pipeline();
    b.implementations.push(Implementation {
        id: "fast".into(),
        slots: vec!["ingest".into()],
        bindings: vec![],
        variant_of: None,
    });
    let facts = facts_from_blueprint(&b, "p.toml");
    // two slots, two ports, one flow, one realization
    assert_eq!(facts.len(), 6);
    let text = write_blueprint(&b);
    let v: serde_json::Value = serde_json::from_str(&text).unwrap();
    assert_eq!(v["blueprint"]["lifecycle"], "draft");
    assert_eq!(v["slot"][1]["id"], "process");
    assert_eq!(v["implementation"][0]["slots"][0], "ingest");
    assert!(v["blueprint"]["supersedes"].is_null());
    for f in &facts {
        assert_eq!(f.source.adapter, "bonsai-blueprint");
        assert_eq!(f.source.digest, digest_of(&text));
    }
    assert!(facts.iter().any(|f| f.subject == "pipeline.v1#implementation/fast"
        && f.predicate == "realizes"
        && f.object == FactObject::Entity("pipeline.v1#slot/ingest".into())));
}

#[test]
fn facts_of_a_code_graph_name_their_source() {
    let mut g = CodeGraph::new();
    let range = Range {
        sl: 4,
        sc: 0,
        el: 6,
        ec: 1,
    };
    g.symbols.insert(
        "foo#".into(),
        Sym {
            display: "foo".into(),
            kind: 12,
            file: "a.rs".into(),
            def: range,
            enclosing: range,
            is_impl: true,
        },
    );
    link(&mut g.refs, "foo#", "bar#");
    link(&mut g.file_deps, "a.rs", "b.rs");
    let digest = digest_of_bytes(&[1, 2, 3]);
    let facts = facts_from_scip(&g, "index.scip", &digest);
    assert_eq!(facts.len(), 3);
    let defined = facts.iter().find(|f| f.predicate == "defined-in").unwrap();
    assert_eq!(defined.subject, "scip:symbol/foo#");
    assert_eq!(defined.object, FactObject::Entity("scip:file/a.rs".into()));
    assert_eq!(defined.attributes.get("line").map(|s| s.as_str()), Some("5"));
    assert_eq!(defined.attributes.get("kind").map(|s| s.as_str()), Some("12"));
    assert_eq!(
        defined.attributes.get("implementation").map(|s| s.as_str()),
        Some("true")
    );
    assert_eq!(defined.attributes.get("display").map(|s| s.as_str()), Some("foo"));
    assert!(facts.iter().all(|f| f.source.digest == digest && f.source.adapter == "scip"));
    let v: serde_json::Value = serde_json::from_str(&write_fact(defined)).unwrap();
    assert_eq!(v["attributes"]["line"], "5");
    assert_eq!(v["object"]["kind"], "entity");
    assert_eq!(v["object"]["value"], "scip:file/a.rs");
}

#[test]
fn digests_are_those_of_blake3() {
    assert_eq!(
        digest_of("abc"),
        format!("b3:{}", blake3::hash(b"abc").to_hex())
    );
    assert_eq!(
        digest_of_bytes(b""),
        "b3:af1349b9f5f9a1a6a0404dea36dcc9499bcb25c9adc112b7cc9a93cae41f3262"
    );
}

#[test]
fn names_of_refs_are_plain() {
    assert!(is_ref_name("main"));
    assert!(!is_ref_name(""));
    assert!(!is_ref_name("a b"));
}

#[test]
fn one_id_stands_for_one_snapshot() {
    let a = || edge("api", "depends-on", "service");
    let b = || edge("service", "depends-on", "database");
    let (first, _) = make_snapshot(&None, &vec![a(), b()]);
    let (again, _) = make_snapshot(&None, &vec![b(), a(), b()]);
    assert_eq!(first.id, again.id);
    assert_eq!(again.fact_count, 2);
    let (fewer, _) = make_snapshot(&None, &vec![a()]);
    assert_ne!(first.id, fewer.id);
    let (child, _) = make_snapshot(&Some(first.id.clone()), &vec![a(), b()]);
    assert_ne!(first.id, child.id);
}

#[test]
fn a_known_snapshot_adds_no_rows() {
    let facts = vec![edge("b", "depends-on", "c"), edge("a", "depends-on", "b")];
    let (snapshot, canonical) = make_snapshot(&None, &facts);
    let rows = rows_to_add(false, &canonical);
    assert_eq!(rows.len(), snapshot.fact_count);
    assert_eq!(rows[0], write_fact(&canonical[0]));
    assert!(rows_to_add(true, &canonical).is_empty());
}

#[test]
fn mutable_refs_point_to_immutable_snapshots() {
    let store = MemoryStore::default();
    let snapshot = store
        .create_snapshot(None, &vec![edge("a", "depends-on", "b")])
        .unwrap();
    store.set_ref("main", &snapshot.id).unwrap();
    assert_eq!(store.resolve_snapshot("main").unwrap(), snapshot.id);
    assert_eq!(store.resolve_snapshot(&snapshot.id).unwrap(), snapshot.id);
}

#[test]
fn a_store_keeps_its_history() {
    let store = MemoryStore::default();
    let a = || edge("api", "depends-on", "service");
    let b = || edge("service", "depends-on", "database");
    let first = store.create_snapshot(None, &vec![a(), b()]).unwrap();
    let before = store.rows.borrow()[&first.id].clone();
    let again = store.create_snapshot(None, &vec![b(), a(), a()]).unwrap();
    assert_eq!(first, again);
    assert_eq!(again.fact_count, 2);
    let next = store
        .create_snapshot(Some(&first.id), &vec![a()])
        .unwrap();
    assert_ne!(next.id, first.id);
    assert_eq!(next.parent_id.as_deref(), Some(first.id.as_str()));
    assert_eq!(store.rows.borrow()[&first.id], before);
    // a name moves on, the snapshots stay
    store.set_ref("main", &first.id).unwrap();
    store.set_ref("main", &next.id).unwrap();
    assert_eq!(store.resolve_snapshot("main").unwrap(), next.id);
    assert_eq!(store.facts(&first.id).unwrap().len(), 2);
    let query = BqlQuery::parse("DEPENDENCIES api DEPTH 2").unwrap();
    let found = store.query(&first.id, &query).unwrap();
    assert_eq!(found.entities, vec!["service", "database"]);
}

#[test]
fn a_store_says_what_it_does_not_know() {
    let store = MemoryStore::default();
    let query = BqlQuery::parse("IMPACT a DEPTH 1").unwrap();
    assert_eq!(
        store.facts("b3:x").map(|_| ()),
        Err("unknown fact snapshot 'b3:x'".to_string())
    );
    assert_eq!(
        store.query("b3:x", &query).map(|_| ()),
        Err("unknown fact snapshot 'b3:x'".to_string())
    );
    assert_eq!(
        store.resolve_snapshot("main"),
        Err("unknown snapshot or ref 'main'".to_string())
    );
    assert_eq!(
        store.set_ref("no spaces", "b3:x"),
        Err("snapshot ref must use only letters, digits, '.', '-', or '_'".to_string())
    );
    assert_eq!(require_known("a", true), Ok(()));
    assert_eq!(resolved("main", Some("b3:y".to_string()), false), Ok("b3:y".to_string()));
    assert_eq!(resolved("b3:y", None, true), Ok("b3:y".to_string()));
}
