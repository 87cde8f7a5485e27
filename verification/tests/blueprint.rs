//! Blueprints: their shape, their locks, their evolution and the files made from them.
use bonsai::admission::{
    check_blueprints, discover_blueprints, lock_path, may_run_witnesses, Discovered,
};
use bonsai::blueprint::{
    Blueprint, BlueprintLock, BlueprintMeta, ChangeClass, CommandOutcome, CompatibilityAdapter,
    CompatibilityPolicy, Direction, Flow, Implementation, Lifecycle, Port, ScaffoldLanguage,
    ShapeDiff, Slot, Witness, WitnessKind, WitnessResult,
};
use bonsai::commands::{all_passed, overwrite_refusal, witness_lines};
use bonsai::shape::LockError;

fn slot(id: &str, responsibility: &str, invariants: &[&str]) -> Slot {
    Slot {
        id: id.into(),
        responsibility: responsibility.into(),
        invariants: invariants.iter().map(|s| s.to_string()).collect(),
        allow_fusion: false,
    }
}

fn port(id: &str, slot: &str, direction: Direction, schema: &str, permanent: bool) -> Port {
    Port {
        id: id.into(),
        slot: slot.into(),
        direction,
        schema: schema.into(),
        version: String::new(),
        compatibility: if permanent {
            CompatibilityPolicy::Permanent
        } else {
            CompatibilityPolicy::Internal
        },
    }
}

fn flow(from: &str, to: &str) -> Flow {
    Flow {
        from: from.into(),
        to: to.into(),
        stateful: false,
        optional: false,
    }
}

fn implementation(id: &str, slots: &[&str], binding: &str) -> Implementation {
    Implementation {
        id: id.into(),
        slots: slots.iter().map(|s| s.to_string()).collect(),
        bindings: vec![binding.into()],
        variant_of: None,
    }
}

fn codec() -> Blueprint {
    Blueprint {
        meta: BlueprintMeta {
            id: "codec.lossless.v1".into(),
            lifecycle: Lifecycle::Locked,
            description: "Typed lossless codec".into(),
            supersedes: None,
        },
        slots: vec![
            slot("transform", "Reversible signal transform", &["reversible"]),
            slot(
                "predict",
                "Predict and retain reconstruction state",
                &["reversible"],
            ),
        ],
        ports: vec![
            port("raw", "transform", Direction::Input, "codec.Raw/v1", true),
            port(
                "transformed",
                "transform",
                Direction::Output,
                "codec.Transformed/v1",
                false,
            ),
            port(
                "predict_in",
                "predict",
                Direction::Input,
                "codec.Transformed/v1",
                false,
            ),
            port(
                "residuals",
                "predict",
                Direction::Output,
                "codec.Residuals/v1",
                true,
            ),
        ],
        flows: vec![flow("transformed", "predict_in")],
        implementations: vec![
            implementation("lifting", &["transform"], "src/stage.rs#LiftPass"),
            implementation("lpc", &["predict"], "src/stage.rs#PredictPass"),
        ],
        adapters: vec![],
        witnesses: vec![Witness {
            id: "byte-equal".into(),
            kind: WitnessKind::Differential,
            command: "cargo test byte_equal".into(),
            covers: vec!["transform".into(), "predict".into()],
        }],
    }
}

fn passed() -> Vec<WitnessResult> {
    vec![WitnessResult::passed("byte-equal".into())]
}

#[test]
fn locked_codec_blueprint_validates_and_has_stable_shape_digest() {
    let blueprint = codec();
    assert_eq!(blueprint.validate(), Vec::<String>::new());
    assert_eq!(blueprint.meta.id, "codec.lossless.v1");
    assert!(blueprint.shape_digest().starts_with("b3:"));

    let mut reordered = blueprint.clone();
    reordered.slots.reverse();
    reordered.ports.reverse();
    reordered.flows.reverse();
    assert_eq!(blueprint.shape_digest(), reordered.shape_digest());

    reordered.meta.description = "Different prose".into();
    reordered.slots[0].responsibility = "Same contract, clearer wording".into();
    assert_eq!(blueprint.shape_digest(), reordered.shape_digest());
}

#[test]
fn the_digest_is_that_of_the_canonical_shape() {
    let b = codec();
    let shape = b.canonical_shape();
    assert_eq!(
        b.shape_digest(),
        format!("b3:{}", blake3::hash(shape.as_bytes()).to_hex())
    );
    let v: serde_json::Value = serde_json::from_str(&shape).unwrap();
    assert!(v.is_array());
    assert!(shape.contains("codec.Residuals/v1"));
    assert!(!shape.contains("Typed lossless codec"));
}

#[test]
fn every_part_of_the_shape_counts() {
    let base = codec().canonical_shape();
    let changes: Vec<(&str, Box<dyn Fn(&mut Blueprint)>)> = vec![
        ("slot id", Box::new(|b| b.slots[0].id = "t".into())),
        ("invariant", Box::new(|b| b.slots[0].invariants.push("x".into()))),
        ("fusion", Box::new(|b| b.slots[0].allow_fusion = true)),
        ("port id", Box::new(|b| b.ports[0].id = "p".into())),
        ("port slot", Box::new(|b| b.ports[0].slot = "predict".into())),
        ("direction", Box::new(|b| b.ports[0].direction = Direction::Output)),
        ("schema", Box::new(|b| b.ports[0].schema = "codec.Raw/v2".into())),
        ("version", Box::new(|b| b.ports[0].version = "2".into())),
        (
            "compatibility",
            Box::new(|b| b.ports[0].compatibility = CompatibilityPolicy::Versioned),
        ),
        ("flow", Box::new(|b| b.flows[0].to = "raw".into())),
        ("state", Box::new(|b| b.flows[0].stateful = true)),
        ("option", Box::new(|b| b.flows[0].optional = true)),
        ("quotes", Box::new(|b| b.ports[0].schema = "a\",\"version\":\"1".into())),
    ];
    for (what, change) in changes {
        let mut b = codec();
        change(&mut b);
        assert_ne!(b.canonical_shape(), base, "{what}");
        assert_ne!(b.shape_digest(), codec().shape_digest(), "{what}");
    }
}

#[test]
fn implementation_variant_does_not_change_shape_identity() {
    let old = codec();
    let mut new = codec();
    new.implementations[1] = implementation("mv-rls", &["predict"], "src/mv_rls.rs#MvRlsPredictor");

    let diff = ShapeDiff::between(&old, &new);
    assert_eq!(diff.class, ChangeClass::ImplementationOnly);
    assert_eq!(old.shape_digest(), new.shape_digest());
    assert_eq!(ShapeDiff::between(&old, &codec()).class, ChangeClass::NoChange);
}

#[test]
fn flow_reorder_requires_new_shape_identity() {
    let old = codec();
    let mut new = codec();
    new.ports[3].direction = Direction::Input;
    new.flows = vec![flow("transformed", "residuals")];

    let diff = ShapeDiff::between(&old, &new);
    assert_eq!(diff.class, ChangeClass::NewShapeRequired);
    assert_ne!(old.shape_digest(), new.shape_digest());
    assert_eq!(diff.old_digest, old.shape_digest());
    assert_eq!(diff.new_digest, new.shape_digest());
}

#[test]
fn lock_records_permanent_ports_and_requires_passing_witnesses() {
    let blueprint = codec();
    let failed = BlueprintLock::create(
        &blueprint,
        &vec![WitnessResult::failed(
            "byte-equal".into(),
            "bytes differ".into(),
        )],
    );
    assert!(failed.is_err());

    let lock = BlueprintLock::create(&blueprint, &passed()).expect("all declared witnesses passed");
    assert_eq!(lock.permanent_ports, vec!["raw", "residuals"]);
    assert_eq!(lock.check(&blueprint), Vec::<String>::new());
}

#[test]
fn a_lock_says_why_it_is_refused() {
    let mut draft = codec();
    draft.meta.lifecycle = Lifecycle::Draft;
    assert_eq!(
        BlueprintLock::create(&draft, &passed()).unwrap_err(),
        LockError::NotLocked
    );
    assert_eq!(
        BlueprintLock::create(&codec(), &vec![]).unwrap_err(),
        LockError::NotRun("byte-equal".into())
    );
    let failed = vec![WitnessResult::failed("byte-equal".into(), "no".into())];
    assert_eq!(
        BlueprintLock::create(&codec(), &failed).unwrap_err(),
        LockError::Failed("byte-equal".into(), "no".into())
    );
    let mut invalid = codec();
    invalid.slots.clear();
    match BlueprintLock::create(&invalid, &passed()) {
        Err(LockError::Invalid(errors)) => assert_eq!(errors, invalid.validate()),
        other => panic!("{other:?}"),
    }
    for e in [
        LockError::NotLocked,
        LockError::NotRun("w".into()),
        LockError::Failed("w".into(), "d".into()),
        LockError::Invalid(vec!["e".into()]),
    ] {
        assert!(!e.message().is_empty());
    }
}

#[test]
fn dependency_cycle_needs_explicit_stateful_flow() {
    let mut blueprint = codec();
    blueprint.flows.push(flow("residuals", "raw"));
    let errors = blueprint.validate();
    assert!(
        errors.iter().any(|error| error.contains("stateful")),
        "cycle must require declared state: {errors:?}"
    );
}

#[test]
fn fused_implementation_requires_opt_in_and_differential_witness() {
    let mut blueprint = codec();
    blueprint.implementations.push(Implementation {
        id: "fused-codec".into(),
        slots: vec!["transform".into(), "predict".into()],
        bindings: vec!["src/fused.rs#FusedCodec".into()],
        variant_of: None,
    });
    assert!(blueprint
        .validate()
        .iter()
        .any(|error| error.contains("does not allow fusion")));

    for slot in &mut blueprint.slots {
        slot.allow_fusion = true;
    }
    blueprint.witnesses[0].covers.clear();
    assert!(blueprint
        .validate()
        .iter()
        .any(|error| error.contains("differential witness")));

    blueprint.witnesses[0].covers = vec!["transform".into(), "predict".into()];
    assert_eq!(blueprint.validate(), Vec::<String>::new());
}

fn adapter(id: &str, from: &str, to: &str) -> CompatibilityAdapter {
    CompatibilityAdapter {
        id: id.into(),
        from: from.into(),
        to: to.into(),
        binding: String::new(),
        witnesses: vec!["byte-equal".into()],
    }
}

#[test]
fn compatibility_adapters_must_be_direct_and_witnessed() {
    let mut blueprint = codec();
    blueprint.adapters = vec![
        adapter("raw-v0-to-v1", "raw-v0", "raw"),
        adapter("raw-v00-to-v0", "raw-v00", "raw-v0"),
    ];
    blueprint.ports.insert(
        0,
        port("raw-v0", "transform", Direction::Input, "codec.Raw/v0", false),
    );
    blueprint.ports.insert(
        0,
        port("raw-v00", "transform", Direction::Input, "codec.Raw/v00", false),
    );
    assert!(blueprint
        .validate()
        .iter()
        .any(|error| error.contains("adapter chain")));
}

#[test]
fn lock_detects_changed_witness_contract() {
    let mut blueprint = codec();
    let lock = BlueprintLock::create(&blueprint, &passed()).unwrap();
    blueprint.witnesses.push(Witness {
        id: "abi-stable".into(),
        kind: WitnessKind::Abi,
        command: "cargo test abi".into(),
        covers: vec!["raw".into()],
    });
    assert!(lock
        .check(&blueprint)
        .iter()
        .any(|error| error.contains("witness contract changed")));

    let mut same_ids = codec();
    same_ids.witnesses[0].command = "true".into();
    assert!(lock
        .check(&same_ids)
        .iter()
        .any(|error| error.contains("witness contract changed")));
}

#[test]
fn evolution_preserves_every_historical_permanent_port() {
    let old = codec();
    let mut next = old.clone();
    next.meta.id = "codec.lossless.v2".into();
    next.meta.supersedes = Some(old.meta.id.clone());
    assert_eq!(
        Blueprint::validate_evolution(&old, &next),
        Vec::<String>::new()
    );

    next.ports.retain(|port| port.id != "raw");
    let errors = Blueprint::validate_evolution(&old, &next);
    assert!(errors
        .iter()
        .any(|error| error.contains("permanent port 'raw'")));

    let mut isolated = old.clone();
    isolated.meta.id = "codec.lossless.v2".into();
    isolated.meta.supersedes = Some(old.meta.id.clone());
    isolated.implementations.clear();
    assert!(Blueprint::validate_evolution(&old, &isolated)
        .iter()
        .any(|error| error.contains("no executable native or direct-adapter path")));
}

#[test]
fn evolution_must_name_the_shape_it_supersedes() {
    let old = codec();
    let mut next = old.clone();
    next.meta.id = "codec.lossless.v2".into();
    assert!(Blueprint::validate_evolution(&old, &next)
        .iter()
        .any(|error| error.contains("must supersede")));
}

#[test]
fn every_kind_of_mistake_is_named() {
    let mut b = codec();
    b.meta.id = " ".into();
    b.slots.push(slot("transform", "", &[]));
    b.ports.push(port("loose", "nowhere", Direction::Input, "", false));
    b.flows.push(flow("predict_in", "missing"));
    b.implementations.push(implementation("x", &["nowhere"], ""));
    b.adapters.push(CompatibilityAdapter {
        id: "a".into(),
        from: "gone".into(),
        to: "gone".into(),
        binding: String::new(),
        witnesses: vec![],
    });
    let errors = b.validate();
    let mut sorted = errors.clone();
    sorted.sort();
    sorted.dedup();
    assert_eq!(errors, sorted, "in order, each once");
    assert!(errors.iter().any(|e| e.contains("port 'loose': slot 'nowhere' does not exist")));
    assert!(errors.iter().any(|e| e.contains("port 'loose': schema must not be empty")));
    assert!(errors.len() > 5, "{errors:?}");
}

#[test]
fn a_witness_that_does_nothing_does_not_pass() {
    let mut w = codec().witnesses.remove(0);
    assert!(!w.is_idle());
    assert!(w.result(&CommandOutcome::Succeeded).passed);
    let r = w.result(&CommandOutcome::Exited("exit status: 1".into()));
    assert!(!r.passed && r.detail.contains("exit status: 1"));
    let r = w.result(&CommandOutcome::Unstarted("no shell".into()));
    assert!(!r.passed && r.detail.contains("no shell"));
    w.command = "  ".into();
    assert!(w.is_idle());
    assert!(!w.result(&CommandOutcome::Succeeded).passed);
}

#[test]
fn witnesses_are_reported() {
    let results = vec![
        WitnessResult::passed("a".into()),
        WitnessResult::failed("b".into(), "broke".into()),
    ];
    assert_eq!(witness_lines(&results), vec!["PASS a", "FAIL b: broke"]);
    assert!(!all_passed(&results));
    assert!(all_passed(&passed()));
    assert!(all_passed(&vec![]));
}

#[test]
fn scaffold_emits_language_specific_contract_stubs_without_overwrite() {
    let mut b = codec();
    b.meta.id = "example.pipeline.v1".into();
    b.slots = vec![
        slot("ingest", "", &["accepts bytes"]),
        slot("output", "", &["emits records"]),
    ];
    b.ports = vec![
        port("bytes", "ingest", Direction::Input, "example.Bytes/v1", true),
        port("records", "ingest", Direction::Output, "example.Records/v1", false),
        port(
            "output-records",
            "output",
            Direction::Input,
            "example.Records/v1",
            false,
        ),
    ];
    b.flows = vec![flow("records", "output-records")];
    for (language, file, expected) in [
        (
            ScaffoldLanguage::Rust,
            "ingest.rs",
            &[
                "pub trait Ingest",
                "pub struct IngestInput",
                "pub bytes: Vec<u8>",
                "pub struct IngestOutput",
                "pub records: Vec<u8>",
                "fn execute(&mut self, input: IngestInput)",
                "fn schema_contract_is_well_formed()",
                "example.Bytes/v1",
            ][..],
        ),
        (
            ScaffoldLanguage::Python,
            "ingest.py",
            &[
                "class IngestInput",
                "bytes: bytes",
                "def execute(self, input:",
            ][..],
        ),
        (
            ScaffoldLanguage::C,
            "ingest.h",
            &[
                "typedef struct",
                "bytes_data",
                "ingest_execute(void *context, const ingest_input *input",
            ][..],
        ),
        (
            ScaffoldLanguage::TypeScript,
            "ingest.ts",
            &[
                "interface IngestInput",
                "bytes: Uint8Array",
                "execute(input: IngestInput)",
            ][..],
        ),
    ] {
        let files = b.scaffold_files(language);
        assert_eq!(files.len(), 2);
        assert_eq!(files[0].relative_path, file);
        for needle in expected {
            assert!(files[0].content.contains(needle), "{file} omitted {needle}");
        }
    }
    assert_eq!(overwrite_refusal(&vec![]), None);
    assert_eq!(
        overwrite_refusal(&vec!["a.rs".into(), "b.rs".into()]),
        Some("refusing to overwrite scaffold files: a.rs, b.rs".to_string())
    );
}

// ── the blueprints of a repository ──────────────────────────────────────────

fn found(rel: &str, b: Blueprint, lock: Result<BlueprintLock, String>) -> Discovered {
    Discovered {
        rel: rel.into(),
        loaded: Ok(b),
        lock,
        results: vec![],
    }
}

#[test]
fn blueprints_are_discovered_by_convention() {
    let names = vec!["b.toml".to_string(), "b.lock.json".into(), "a.toml".into()];
    assert_eq!(
        discover_blueprints(true, &names),
        vec![
            ".bonsai/blueprints/a.toml",
            ".bonsai/blueprints/b.toml",
            "bonsai.blueprint.toml",
        ]
    );
    assert!(discover_blueprints(false, &vec![]).is_empty());
    assert_eq!(
        lock_path(".bonsai/blueprints/a.toml"),
        ".bonsai/blueprints/a.lock.json"
    );
}

#[test]
fn repository_check_reruns_the_locked_witness_contract() {
    let lock = BlueprintLock::create(&codec(), &passed()).unwrap();
    assert!(may_run_witnesses(&codec(), &Ok(lock.clone())));

    // a changed command is refused before it could be run
    let mut changed = codec();
    changed.witnesses[0].command = "rm -rf /".into();
    assert!(!may_run_witnesses(&changed, &Ok(lock.clone())));
    let f = check_blueprints(&vec![found("a.toml", changed, Ok(lock.clone()))]);
    assert!(f.iter().any(|x| x.message.contains("witness contract changed")));

    // the witnesses that were run have the last word
    let mut d = found("a.toml", codec(), Ok(lock.clone()));
    assert!(check_blueprints(&vec![found("a.toml", codec(), Ok(lock.clone()))]).is_empty());
    d.results = vec![WitnessResult::failed("byte-equal".into(), "differ".into())];
    let f = check_blueprints(&vec![d]);
    assert_eq!(f.len(), 1);
    assert_eq!(f[0].rule, "blueprint-lock");
    assert_eq!(f[0].message, "witness 'byte-equal' failed: differ");
    assert_eq!(f[0].location.file, "a.toml");
}

#[test]
fn a_missing_lock_or_an_unreadable_blueprint_is_refused() {
    let f = check_blueprints(&vec![found("a.toml", codec(), Err("no lock".into()))]);
    assert_eq!(f.len(), 1);
    assert_eq!(f[0].message, "no lock");
    let f = check_blueprints(&vec![Discovered {
        rel: "b.toml".into(),
        loaded: Err("not TOML".into()),
        lock: Err(String::new()),
        results: vec![],
    }]);
    assert_eq!(f.len(), 1);
    assert_eq!(f[0].message, "not TOML");
    // a draft needs no lock
    let mut draft = codec();
    draft.meta.lifecycle = Lifecycle::Draft;
    assert!(check_blueprints(&vec![found("c.toml", draft, Err("no lock".into()))]).is_empty());
}

#[test]
fn a_missing_predecessor_is_refused() {
    let mut old = codec();
    old.meta.lifecycle = Lifecycle::Superseded;
    let mut next = codec();
    next.meta.id = "codec.lossless.v2".into();
    next.meta.lifecycle = Lifecycle::Draft;
    next.meta.supersedes = Some("codec.lossless.v1".into());
    let f = check_blueprints(&vec![found("n.toml", next.clone(), Err(String::new()))]);
    assert_eq!(f.len(), 1, "{f:?}");
    assert!(f[0].message.contains("codec.lossless.v1"));
    let both = vec![
        found("n.toml", next.clone(), Err(String::new())),
        found("o.toml", old.clone(), Err(String::new())),
    ];
    assert!(check_blueprints(&both).is_empty());
    next.ports.retain(|p| p.id != "raw");
    let both = vec![
        found("n.toml", next, Err(String::new())),
        found("o.toml", old, Err(String::new())),
    ];
    assert!(check_blueprints(&both)
        .iter()
        .any(|x| x.message.contains("permanent port 'raw'")));
}

#[test]
fn validate_verify_lock_and_check_round_trip() {
    let b = codec();
    assert!(b.validate().is_empty());
    let results: Vec<WitnessResult> = b
        .witnesses
        .iter()
        .map(|w| w.result(&CommandOutcome::Succeeded))
        .collect();
    assert!(all_passed(&results));
    let lock = BlueprintLock::create(&b, &results).unwrap();
    assert_eq!(lock.schema_version, 2);
    assert!(lock.check(&b).is_empty());
    let f = check_blueprints(&vec![Discovered {
        rel: "bonsai.blueprint.toml".into(),
        loaded: Ok(b),
        lock: Ok(lock),
        results,
    }]);
    assert!(f.is_empty());
}

#[test]
fn the_order_of_lists_does_not_matter() {
    let mut wrong = codec();
    wrong.ports[0].slot = "nowhere".into();
    wrong.ports[1].schema = " ".into();
    wrong.flows.push(flow("raw", "gone"));
    wrong.implementations.push(implementation("lpc", &["transform", "predict"], "x"));
    wrong.adapters = vec![adapter("a", "raw", "residuals"), adapter("b", "residuals", "gone")];
    wrong.witnesses.push(Witness {
        id: "byte-equal".into(),
        kind: WitnessKind::Static,
        command: "true".into(),
        covers: vec!["nothing".into()],
    });
    let mut turned = wrong.clone();
    turned.slots.reverse();
    turned.ports.reverse();
    turned.flows.reverse();
    turned.implementations.reverse();
    turned.adapters.reverse();
    turned.witnesses.reverse();
    let errors = wrong.validate();
    assert!(errors.len() > 8, "{errors:?}");
    assert_eq!(errors, turned.validate());
    assert!(errors.windows(2).all(|w| w[0] < w[1]));
}

#[test]
fn a_lock_holds_exactly_what_it_pins() {
    let mut b = codec();
    b.witnesses.push(Witness {
        id: "abi".into(),
        kind: WitnessKind::Abi,
        command: "true".into(),
        covers: vec!["raw".into()],
    });
    let results = vec![
        WitnessResult::passed("byte-equal".into()),
        WitnessResult::passed("abi".into()),
    ];
    let lock = BlueprintLock::create(&b, &results).unwrap();
    let mut same = b.clone();
    same.ports.reverse();
    same.witnesses.reverse();
    same.implementations[0].bindings = vec!["elsewhere".into()];
    assert_eq!(lock.check(&same), Vec::<String>::new());
    let mut invalid = b.clone();
    invalid.implementations[0].slots.clear();
    assert!(!lock.check(&invalid).is_empty());
    let mut renamed = b.clone();
    renamed.meta.id = "other".into();
    assert_eq!(lock.check(&renamed).len(), 1);
    let mut widened = b.clone();
    widened.ports[1].compatibility = CompatibilityPolicy::Permanent;
    assert_eq!(lock.check(&widened).len(), 2);
    let mut weaker = b.clone();
    weaker.witnesses[0].covers.pop();
    assert_eq!(lock.check(&weaker), vec!["witness contract changed"]);
}
