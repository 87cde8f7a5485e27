//! The tree, the code graph, and what is read off them.
use bonsai::commands::{fan_in, index_lines, is_stale, placement_lines};
use bonsai::config::{Config, Meta, NodeSpec, Rules};
use bonsai::finding::{Finding, Location, Severity};
use bonsai::model::{Kind, Node, Plane};
use bonsai::moves::Workspace;
use bonsai::order::{link, Names, Table};
use bonsai::outline::{
    descendant_atoms, facet_tag, file_counts, is_complete, leaf_name, pad, stat_line, total_lines,
    tree_lines,
};
use bonsai::place::{crate_imports, module_dir_map, place_existing, place_new};
use bonsai::rules::{apply_allow, apply_inline_suppression, evaluate};
use bonsai::scip::{
    dir_name, CodeGraph, Index, IndexDocument, IndexOccurrence, IndexSymbol,
};
use bonsai::tree::{Measure, Tree};
use bonsai::walk::{default_skip, files_with_ext, is_skipped, subrepo_of, subrepo_roots, Entry};
use protobuf::Message;

fn ws(pairs: &[(&str, &str)]) -> Workspace {
    let pairs = pairs
        .iter()
        .map(|(path, text)| (path.to_string(), text.to_string()))
        .collect();
    Workspace::from_pairs(".".to_string(), pairs)
}

fn strings(v: &[&str]) -> Vec<String> {
    v.iter().map(|s| s.to_string()).collect()
}

// ── placement ───────────────────────────────────────────────────────────────

#[test]
fn place_existing_ranks_coupled_dir() {
    // util/helper.rs is used by two feature/*.rs and uses one core/*.rs.
    let mut g = CodeGraph::default();
    link(&mut g.file_deps, "feature/a.rs", "util/helper.rs");
    link(&mut g.file_deps, "feature/b.rs", "util/helper.rs");
    link(&mut g.file_deps, "util/helper.rs", "core/x.rs");

    let p = place_existing(&g, "util/helper.rs").unwrap();
    assert_eq!(p.current_dir, "util");
    // two in-edges from feature/ beat one out-edge to core/
    assert_eq!(p.recommended(), Some("feature"));
    assert!(!p.well_placed(), "helper belongs in feature/, not util/");
    assert!(p.from_graph);
    assert_eq!(
        placement_lines(&p),
        vec![
            "  signal: SCIP coupling (exact)",
            "  currently in: util/",
            "  → belongs in: feature/",
            "  coupling by directory:",
            "      2×  feature/",
            "      1×  core/",
        ]
    );
}

#[test]
fn place_new_from_imports() {
    let content =
        "use crate::scan::Scan;\nuse crate::scan::ScanConfig;\nuse crate::model::Node;\n";
    let files = vec![
        "src/scan.rs".to_string(),
        "src/model.rs".to_string(),
        "src/lib.rs".to_string(),
    ];
    let map = module_dir_map(&files);
    let p = place_new(content, "src", &map).unwrap();
    // two crate::scan hits vs one crate::model → scan's dir wins
    assert_eq!(p.recommended(), Some("src"));
    assert!(!p.from_graph);
    assert_eq!(crate_imports(content).len(), 3);
}

#[test]
fn island_file_has_no_recommendation() {
    let g = CodeGraph::default();
    assert!(place_existing(&g, "lonely.rs").is_none());
}

// ── conformance ─────────────────────────────────────────────────────────────

fn spec(id: &str, layer: &str) -> NodeSpec {
    let mut facets: Table<String, false> = Table::new();
    facets.insert("layer".to_string(), layer.to_string());
    NodeSpec {
        id: id.to_string(),
        kind: Some("composite".to_string()),
        plane: None,
        parent: Some(".".to_string()),
        anchors: vec![],
        depends_on: vec![],
        facets,
    }
}

fn no_rules() -> Rules {
    Rules {
        layers: vec![],
        max_files_per_dir: 0,
        enforce_placement: false,
        max_layers: 0,
        max_depth: 0,
        forbid_cycles: false,
        allow: vec![],
    }
}

fn config(nodes: Vec<NodeSpec>, rules: Option<Rules>) -> Config {
    Config {
        bonsai: Meta::default(),
        docs: None,
        nodes,
        rules,
        contracts: vec![],
        github: None,
    }
}

/// Three layered dirs; `kernel/k.rs` wrongly depends on `cli/c.rs` (upward).
fn layered_config() -> Config {
    let rules = Rules {
        layers: strings(&["kernel", "cli"]),
        max_files_per_dir: 2,
        ..no_rules()
    };
    config(vec![spec("kernel", "kernel"), spec("cli", "cli")], Some(rules))
}

fn add_node(tree: &mut Tree, id: &str, parent: &str, kind: Kind) {
    let mut n = Node::new(id.to_string(), kind, Plane::Code);
    n.parent = Some(parent.to_string());
    tree.insert(n);
    let at = tree.nodes.find(parent).unwrap();
    let mut p = tree
        .nodes
        .swap(at, Node::new(parent.to_string(), Kind::Composite, Plane::Code));
    if !p.children.contains(&id.to_string()) {
        p.children.push(id.to_string());
    }
    tree.nodes.swap(at, p);
}

/// Attach an atom child to an existing parent, both-ways (one-home).
fn add_atom(tree: &mut Tree, id: &str, parent: &str) {
    add_node(tree, id, parent, Kind::Atom);
}

/// Attach a composite (directory) child to an existing parent.
fn add_composite(tree: &mut Tree, id: &str, parent: &str) {
    add_node(tree, id, parent, Kind::Composite);
}

#[test]
fn layering_flags_upward_dependency() {
    let cfg = layered_config();
    let mut tree = cfg.into_tree(None);
    // graph: kernel/k.rs -> cli/c.rs  (upward: kernel is more stable than cli)
    let mut g = CodeGraph::default();
    link(&mut g.file_deps, "kernel/k.rs", "cli/c.rs");
    add_atom(&mut tree, "kernel/k.rs", "kernel");
    add_atom(&mut tree, "cli/c.rs", "cli");

    let rules = cfg.rules.clone().unwrap();
    let f = evaluate(&tree, Some(&g), &rules);
    assert!(
        f.iter().any(|x| x.rule == "conformance-layering"),
        "upward dep should be flagged: {f:?}"
    );

    // the reverse edge (cli -> kernel, downward) is allowed
    let mut g2 = CodeGraph::default();
    link(&mut g2.file_deps, "cli/c.rs", "kernel/k.rs");
    let f2 = evaluate(&tree, Some(&g2), &rules);
    assert!(
        !f2.iter().any(|x| x.rule == "conformance-layering"),
        "downward dep must be allowed: {f2:?}"
    );
}

#[test]
fn bounded_growth_flags_overfull_dir() {
    let cfg = layered_config(); // max_files_per_dir = 2
    let mut tree = cfg.into_tree(None);
    for i in 0..3 {
        add_atom(&mut tree, &format!("kernel/f{i}.rs"), "kernel");
    }
    let rules = cfg.rules.clone().unwrap();
    let f = evaluate(&tree, None, &rules);
    assert!(
        f.iter()
            .any(|x| x.rule == "conformance-size" && x.location.file == "kernel"),
        "overfull dir should be flagged: {f:?}"
    );
}

#[test]
fn abstraction_bounds_cap_layers_and_depth() {
    // too many declared layers
    let mut rules = Rules {
        layers: strings(&["a", "b", "c"]),
        max_layers: 2,
        ..no_rules()
    };
    let tree = config(vec![], None).into_tree(None);
    let f = evaluate(&tree, None, &rules);
    assert!(
        f.iter().any(|x| x.rule == "abstraction-layers"),
        "3 layers > 2 must flag: {f:?}"
    );

    // nesting deeper than max_depth
    rules = Rules {
        max_depth: 1,
        ..no_rules()
    };
    let mut deep = config(vec![], None).into_tree(None);
    add_composite(&mut deep, "a", ".");
    add_composite(&mut deep, "a/b", "a");
    add_atom(&mut deep, "a/b/f.rs", "a/b");
    assert!(deep.can_fold());
    let g = evaluate(&deep, None, &rules);
    assert!(
        g.iter().any(|x| x.rule == "abstraction-depth"),
        "deep tree > max_depth 1 must flag: {g:?}"
    );
}

#[test]
fn forbidden_cycles_and_enforced_placement_are_errors() {
    let mut g = CodeGraph::default();
    link(&mut g.file_deps, "a/x.rs", "b/y.rs");
    link(&mut g.file_deps, "b/y.rs", "a/x.rs");
    let tree = config(vec![], None).into_tree(None);
    let rules = Rules {
        forbid_cycles: true,
        ..no_rules()
    };
    let f = evaluate(&tree, Some(&g), &rules);
    assert_eq!(f.len(), 1);
    assert_eq!(f[0].rule, "structure-cycle");
    assert_eq!(f[0].severity, Severity::Error);
    assert!(evaluate(&tree, Some(&g), &no_rules()).is_empty());

    let mut g = CodeGraph::default();
    link(&mut g.file_deps, "feature/a.rs", "util/helper.rs");
    link(&mut g.file_deps, "feature/b.rs", "util/helper.rs");
    let rules = Rules {
        enforce_placement: true,
        ..no_rules()
    };
    let f = evaluate(&tree, Some(&g), &rules);
    assert!(f.iter().any(|x| x.location.file == "util/helper.rs"), "{f:?}");
    assert!(f.iter().all(|x| x.severity == Severity::Error));
}

fn finding(rule: &str, severity: Severity, message: &str, location: Location) -> Finding {
    Finding::new(rule, severity, message.to_string(), location)
}

fn at(file: &str, line: u32) -> Location {
    Location::at(file.to_string(), line)
}

#[test]
fn inline_suppression_waives_by_line_and_rule() {
    let ws = ws(&[(
        "a.rs",
        "fn ok() {}\nfn dead1() {} // bonsai:allow(dead-code)\n// bonsai:allow\nfn dead2() {}\nfn dead3() {}\n",
    )]);
    let findings = vec![
        // line 2: same-line waiver naming dead-code → suppressed
        finding("dead-code", Severity::Warning, "x", at("a.rs", 2)),
        // line 4: waiver on the line above (bare) → suppressed
        finding("dead-code", Severity::Warning, "x", at("a.rs", 4)),
        // line 5: no waiver → kept
        finding("dead-code", Severity::Warning, "x", at("a.rs", 5)),
    ];
    let (kept, n) = apply_inline_suppression(&ws, findings);
    assert_eq!(n, 2, "two waived");
    assert_eq!(kept.len(), 1);
    assert_eq!(kept[0].location.line, Some(5));
}

#[test]
fn inline_suppression_respects_rule_specificity() {
    // waiver names a DIFFERENT rule → the finding is NOT suppressed
    let ws = ws(&[("b.rs", "fn f() {} // bonsai:allow(duplicate)\n")]);
    let findings = vec![finding("dead-code", Severity::Warning, "x", at("b.rs", 1))];
    let (kept, n) = apply_inline_suppression(&ws, findings);
    assert_eq!(n, 0, "different rule not waived");
    assert_eq!(kept.len(), 1);
}

#[test]
fn inline_suppression_takes_families_and_sets() {
    let ws = ws(&[(
        "b.rs",
        "a // bonsai:allow(dead)\nb // bonsai:allow(duplicate, dead-code)\nc\nd // bonsai:allow(dead-code\n",
    )]);
    let findings = vec![
        finding("dead-code", Severity::Warning, "x", at("b.rs", 1)),
        finding("dead-code", Severity::Warning, "x", at("b.rs", 2)),
        // the brackets do not close, so that nothing is waived there
        finding("dead-code", Severity::Warning, "x", at("b.rs", 4)),
        // a finding on a file as a whole has no line to be waived at
        finding(
            "dead-code",
            Severity::Warning,
            "x",
            Location::file("b.rs".to_string()),
        ),
    ];
    let (kept, n) = apply_inline_suppression(&ws, findings);
    assert_eq!(n, 2);
    assert_eq!(kept.len(), 2);
}

#[test]
fn allow_list_exempts_matching_findings_and_reports_them() {
    let file = |f: &str| Location::file(f.to_string());
    let findings = vec![
        finding("conformance-layering", Severity::Error, "up", file("legacy/x.rs")),
        finding("conformance-layering", Severity::Error, "up", file("core/y.rs")),
        finding("contract-seal", Severity::Error, "gone", file("codec/src")),
    ];
    // exempt all layering violations under legacy/, plus every contract-seal
    let allow = vec![
        "conformance-layering:legacy/**".to_string(),
        "contract-seal".to_string(),
    ];
    let (kept, exempted) = apply_allow(findings, &allow);
    // core/y.rs layering stays; legacy/x.rs + the seal are exempted
    assert_eq!(kept.len(), 1);
    assert_eq!(kept[0].location.file, "core/y.rs");
    assert_eq!(exempted.len(), 2);
}

// ── the code graph ──────────────────────────────────────────────────────────

fn occ(symbol: &str, range: Vec<i32>, def: bool, enc: Vec<i32>) -> IndexOccurrence {
    IndexOccurrence {
        symbol: symbol.to_string(),
        roles: if def { 1 } else { 0 },
        range,
        enclosing_range: enc,
    }
}

fn document(path: &str) -> IndexDocument {
    IndexDocument {
        relative_path: path.to_string(),
        occurrences: vec![],
        symbols: vec![],
    }
}

fn two_files() -> Index {
    let mut a = document("a.rs");
    // foo defined at line 0, body spans lines 0..5
    a.occurrences
        .push(occ("foo#", vec![0, 3, 0, 6], true, vec![0, 0, 5, 0]));

    let mut b = document("b.rs");
    // bar defined lines 0..5; reference to foo at line 2
    b.occurrences
        .push(occ("bar#", vec![0, 3, 0, 6], true, vec![0, 0, 5, 0]));
    b.occurrences.push(occ("foo#", vec![2, 8, 2, 11], false, vec![]));
    Index {
        documents: vec![a, b],
    }
}

fn linked(t: &Table<Names, false>, a: &str, b: &str) -> bool {
    t.get(a).map(|s| s.contains(b)).unwrap_or(false)
}

/// Two files: `a.rs` defines `foo`; `b.rs` defines `bar`, whose body references `foo`.
/// Expect: edge bar→foo, and file_deps b.rs→a.rs.
#[test]
fn attributes_reference_to_enclosing_symbol() {
    let g = CodeGraph::from_index(&two_files());
    assert!(g.symbols.contains("foo#") && g.symbols.contains("bar#"));
    assert!(linked(&g.refs, "bar#", "foo#"), "{:?}", g.refs);
    assert!(linked(&g.file_deps, "b.rs", "a.rs"));
    // and nothing else, nor a name that is linked to nothing
    assert_eq!((g.symbols.len(), g.occurrences), (2, 1));
    assert_eq!((g.refs.len(), g.refs.get("bar#").unwrap().len()), (1, 1));
    assert_eq!((g.file_deps.len(), g.file_deps.get("b.rs").unwrap().len()), (1, 1));
    // foo is referenced; bar is not → reachable from {bar} includes foo
    let mut entry: Names = Table::new();
    entry.insert("bar#".to_string(), ());
    let reach = g.reachable(&entry);
    assert!(reach.contains("foo#") && reach.contains("bar#"));
}

#[test]
fn module_containment_edges_excluded_from_coupling() {
    // b.rs only does `mod m;` (a reference to a Module-kind symbol defined in a.rs).
    // That is containment, not coupling → no file-dep edge, so a.rs is not "misplaced".
    let mut a = document("a.rs");
    a.occurrences
        .push(occ("m#", vec![0, 4, 0, 5], true, vec![0, 0, 3, 0]));
    a.symbols.push(IndexSymbol {
        symbol: "m#".to_string(),
        display_name: String::new(),
        kind: scip::types::symbol_information::Kind::Module as i32,
        implements: vec![],
    });

    let mut b = document("b.rs");
    b.occurrences
        .push(occ("root#", vec![0, 0, 0, 4], true, vec![0, 0, 5, 0]));
    b.occurrences.push(occ("m#", vec![1, 4, 1, 5], false, vec![])); // `mod m;`

    let g = CodeGraph::from_index(&Index {
        documents: vec![a, b],
    });
    assert!(
        g.file_deps.is_empty(),
        "module edge leaked into coupling: {:?}",
        g.file_deps
    );
    assert!(g.misplacements().is_empty());
}

#[test]
fn misplacement_flags_single_consumer_dir() {
    // util/helper.rs is referenced only from feature/*.rs → belongs under feature/.
    let mut g = CodeGraph::default();
    link(&mut g.file_deps, "feature/a.rs", "util/helper.rs");
    link(&mut g.file_deps, "feature/b.rs", "util/helper.rs");
    let m = g.misplacements();
    assert_eq!(m.len(), 1, "{m:?}");
    assert_eq!(m[0].file, "util/helper.rs");
    assert_eq!(m[0].suggested_dir, "feature");

    // add a same-dir consumer → no longer exclusively external → not flagged
    link(&mut g.file_deps, "util/other.rs", "util/helper.rs");
    assert!(
        g.misplacements().is_empty(),
        "shared util must not be flagged"
    );
}

#[test]
fn drops_local_scope_symbols() {
    let mut d = document("a.rs");
    d.occurrences.push(occ("local 1", vec![1, 0, 1, 3], true, vec![]));
    let g = CodeGraph::from_index(&Index { documents: vec![d] });
    assert!(g.symbols.is_empty());
}

fn encoded(path: &str, symbol: &str, display: &str) -> Vec<u8> {
    let mut info = scip::types::SymbolInformation::new();
    info.symbol = symbol.to_string();
    info.display_name = display.to_string();
    info.kind = scip::types::symbol_information::Kind::Function.into();
    let mut rel = scip::types::Relationship::new();
    rel.is_implementation = true;
    info.relationships.push(rel);
    let mut o = scip::types::Occurrence::new();
    o.symbol = symbol.to_string();
    o.range = vec![7, 3, 9];
    o.symbol_roles = 1;
    o.enclosing_range = vec![7, 0, 12, 1];
    let mut d = scip::types::Document::new();
    d.relative_path = path.to_string();
    d.occurrences.push(o);
    d.symbols.push(info);
    let mut idx = scip::types::Index::new();
    idx.documents.push(d);
    idx.write_to_bytes().unwrap()
}

#[test]
fn an_encoded_index_is_read() {
    let g = CodeGraph::from_bytes(&encoded("src/a.rs", "foo#", "foo")).unwrap();
    assert_eq!(g.symbols.len(), 1);
    let s = g.symbols.get("foo#").unwrap();
    assert_eq!(s.display, "foo");
    assert_eq!(s.file, "src/a.rs");
    assert_eq!(s.kind, scip::types::symbol_information::Kind::Function as i32);
    assert_eq!((s.def.sl, s.def.sc, s.def.el, s.def.ec), (7, 3, 7, 9));
    assert_eq!(s.enclosing.el, 12);
    assert!(s.is_impl);
    assert!(CodeGraph::from_bytes(&[0xff, 0xff, 0xff]).is_err());
}

#[test]
fn several_indices_make_one_graph() {
    let files = vec![
        encoded("src/a.rs", "foo#", "foo"),
        encoded("py/b.py", "bar#", "bar"),
    ];
    let g = CodeGraph::from_all_bytes(&files).unwrap();
    assert_eq!(g.symbols.len(), 2);
    assert!(CodeGraph::from_all_bytes(&vec![vec![0xff]]).is_err());
}

#[test]
fn dead_code_is_what_nothing_alive_uses() {
    let mut d = document("src/a.rs");
    for (name, line) in [("api#", 0), ("used#", 2), ("dead#", 4)] {
        d.occurrences.push(occ(
            name,
            vec![line, 3, 9],
            true,
            vec![line, 0, line + 1, 1],
        ));
    }
    // api# uses used#
    d.occurrences.push(occ("used#", vec![0, 20, 24], false, vec![]));
    let mut p = document("py/b.py");
    p.occurrences
        .push(occ("py#", vec![0, 0, 3], true, vec![0, 0, 3, 0]));
    let g = CodeGraph::from_index(&Index {
        documents: vec![d, p],
    });
    let ws = ws(&[(
        "src/a.rs",
        "pub fn api() { used() }\n\nfn used() {\n}\nfn dead() {\n}\n",
    )]);
    let roots = g.public_roots(&ws);
    assert!(roots.contains("api#"));
    let dead = g.dead_symbols(&ws, &vec![]);
    let lines: Vec<i32> = dead.iter().map(|s| s.def.sl).collect();
    assert_eq!(lines, vec![4], "only the one that nothing uses; never Python");
    assert!(g.dead_symbols(&ws, &vec![77]).is_empty());

    let said = index_lines(&g, &dead);
    assert_eq!(said[0], "bonsai index — 4 symbols across 2 files, 1 ref edges, 1 refs seen");
    assert_eq!(said[1], "  file dependency edges: 0");
    assert_eq!(said[2], "  top fan-in symbols:");
    assert_eq!(said[3], "      1×  used#");
    assert_eq!(said[4], "  dead (unreachable from pub API + main): 1");
    assert_eq!(said[5], "    kind  0  src/a.rs:5  ?");
    assert_eq!(fan_in(&g), vec![("used#".to_string(), 1)]);
}

#[test]
fn what_is_alive_in_a_missing_file_does_not_matter() {
    let g = CodeGraph::from_index(&two_files());
    let none = ws(&[]);
    let dead = g.dead_symbols(&none, &vec![]);
    assert_eq!(dead.len(), 2);
}

#[test]
fn tangled_files_are_found() {
    let mut g = CodeGraph::default();
    link(&mut g.file_deps, "a.rs", "b.rs");
    link(&mut g.file_deps, "b.rs", "c.rs");
    link(&mut g.file_deps, "c.rs", "a.rs");
    link(&mut g.file_deps, "d.rs", "a.rs");
    assert_eq!(
        g.dependency_cycles(),
        vec![strings(&["a.rs", "b.rs", "c.rs"])]
    );
    assert_eq!(dir_name("a/b/c.rs"), "a/b");
    assert_eq!(dir_name("c.rs"), "");
}

#[test]
fn an_index_older_than_a_source_is_stale() {
    assert!(is_stale(10, &vec![3, 11]));
    assert!(!is_stale(10, &vec![3, 10]));
    assert!(!is_stale(10, &vec![]));
}

// ── the tree ────────────────────────────────────────────────────────────────

fn n(id: &str, kind: Kind, parent: Option<&str>, children: &[&str]) -> Node {
    let mut node = Node::new(id.to_string(), kind, Plane::Code);
    node.parent = parent.map(|s| s.to_string());
    node.children = strings(children);
    node
}

fn sample() -> Tree {
    let mut t = Tree::new("root".to_string());
    t.insert(n("root", Kind::Composite, None, &["a", "b"]));
    t.insert(n("a", Kind::Composite, Some("root"), &["a.1"]));
    t.insert(n("a.1", Kind::Atom, Some("a"), &[]));
    t.insert(n("b", Kind::Atom, Some("root"), &[]));
    t
}

#[test]
fn valid_tree_passes() {
    let t = sample();
    assert!(t.check().is_empty(), "unexpected: {:?}", t.check());
}

#[test]
fn fold_counts_leaves_at_every_depth() {
    let t = sample();
    // subtree leaf count = a catamorphism (atoms→1, composites→sum(children)).
    let counts = t.fold(&|node: &Node, kids: &[usize]| match node.kind {
        Kind::Atom => 1usize,
        Kind::Composite => kids.iter().sum(),
    });
    assert_eq!(*counts.get("root").unwrap(), 2); // a.1 + b
    assert_eq!(*counts.get("a").unwrap(), 1); // a.1
    assert_eq!(*counts.get("b").unwrap(), 1);
}

#[test]
fn one_home_violation_detected() {
    let mut t = Tree::new("root".to_string());
    t.insert(n("root", Kind::Composite, None, &["a"]));
    t.insert(n("a", Kind::Atom, Some("root"), &[]));
    // 'b' claims root as parent but root doesn't list it → one-home broken.
    t.insert(n("b", Kind::Atom, Some("root"), &[]));
    assert!(t.check().iter().any(|e| e.contains("one-home")));
}

#[test]
fn dependency_cycle_detected() {
    let mut t = Tree::new("root".to_string());
    t.insert(n("root", Kind::Composite, None, &["a", "b"]));
    let mut a = n("a", Kind::Atom, Some("root"), &[]);
    let mut b = n("b", Kind::Atom, Some("root"), &[]);
    a.depends_on = vec!["b".into()];
    b.depends_on = vec!["a".into()];
    t.insert(a);
    t.insert(b);
    assert!(t.check().iter().any(|e| e.contains("dependency cycle")));
}

#[test]
fn the_first_cycle_is_shown_with_the_way_to_it() {
    let mut t = Tree::new("root".to_string());
    t.insert(n("root", Kind::Composite, None, &["0", "a", "b", "c"]));
    for (id, deps) in [
        ("0", vec!["gone", "c", "a"]),
        ("a", vec!["c", "b"]),
        ("b", vec!["b2", "a"]),
        ("c", vec![]),
    ] {
        let mut node = n(id, Kind::Atom, Some("root"), &[]);
        node.depends_on = strings(&deps);
        t.insert(node);
    }
    assert_eq!(
        t.check(),
        vec![
            "0: depends_on 'gone' missing",
            "b: depends_on 'b2' missing",
            "dependency cycle: 0 -> a -> b -> a",
        ]
    );
}

#[test]
fn a_tree_that_goes_round_cannot_be_folded() {
    let mut t = Tree::new("root".to_string());
    t.insert(n("root", Kind::Composite, None, &["a"]));
    t.insert(n("a", Kind::Composite, Some("root"), &["b"]));
    t.insert(n("b", Kind::Composite, Some("a"), &["a"]));
    assert!(!t.can_fold());
    assert!(!t.check().is_empty());
    assert!(sample().can_fold());
    assert!(!t.ends_below("a"));
    assert!(sample().ends_below("a"));
    assert!(t.ends_below("nowhere"));
    // a child that is no node is no obstacle to folding, but the tree is not complete
    let mut t = Tree::new("root".to_string());
    t.insert(n("root", Kind::Composite, None, &["gone"]));
    assert!(t.can_fold());
    assert!(!is_complete(&t));
    assert!(is_complete(&sample()));
    // nothing at all
    assert!(Tree::new("root".to_string()).can_fold());
}

#[test]
fn measures_agree_with_the_fold() {
    let t = sample();
    assert_eq!(t.measure_root(Measure::Atoms), 2);
    assert_eq!(t.measure_root(Measure::Depth), 3);
    let counts = file_counts(&t);
    assert_eq!(counts.get("a"), Some(&1));
    assert_eq!(counts.get("nowhere"), None);
}

#[test]
fn the_way_up_leads_to_the_root() {
    let t = sample();
    let (way, ends) = t.way_up("a.1");
    assert_eq!(way, strings(&["a.1", "a", "root"]));
    assert!(ends, "above the root there is nothing");
}

#[test]
fn a_tree_is_shown() {
    let mut t = sample();
    let mut docs = n("c", Kind::Composite, Some("root"), &[]);
    docs.plane = Plane::Docs;
    docs.facets.insert("language".to_string(), "md".to_string());
    assert_eq!(facet_tag(&docs), "  [docs md]");
    t.insert(docs);
    t.insert(n("root", Kind::Composite, None, &["a", "b", "c"]));
    assert_eq!(
        tree_lines(&t, false, None),
        vec![
            "▸ root  (2 files)",
            "├─ ▸ a  (1 files)",
            "└─ ▸ c  (0 files)  [docs md]",
        ]
    );
    assert_eq!(
        tree_lines(&t, true, None),
        vec![
            "▸ root  (2 files)",
            "├─ ▸ a  (1 files)",
            "│  └─ a.1",
            "├─ b",
            "└─ ▸ c  (0 files)  [docs md]",
        ]
    );
    assert_eq!(
        tree_lines(&t, true, Some(1)),
        vec![
            "▸ root  (2 files)",
            "├─ ▸ a  (1 files) …",
            "├─ b",
            "└─ ▸ c  (0 files)  [docs md]",
        ]
    );
    assert_eq!(leaf_name("a/b/c"), "c");
    assert_eq!(leaf_name("c"), "c");
}

#[test]
fn subtrees_have_sizes() {
    let t = sample();
    assert_eq!(descendant_atoms(&t, "root"), strings(&["b", "a.1"]));
    assert_eq!(descendant_atoms(&t, "b"), strings(&["b"]));
    let mut loc: Table<usize, false> = Table::new();
    loc.insert("b".to_string(), 7);
    loc.insert("a.1".to_string(), 5);
    assert_eq!(total_lines(&loc, &descendant_atoms(&t, "root")), 12);
    assert_eq!(pad("7", 3), "  7");
    assert_eq!(pad("1234", 3), "1234");
    assert_eq!(
        stat_line("12.5", 3, 120, "a/b"),
        format!("  {:>5}%  {:>6}  {:>5}   {}", "12.5", 3, 120, "a/b")
    );
}

// ── the walk ────────────────────────────────────────────────────────────────

#[test]
fn subrepo_of_picks_deepest() {
    let roots = strings(&["sub", "sub/nested", "other"]);
    assert_eq!(subrepo_of("sub/nested/a.rs", &roots), "sub/nested");
    assert_eq!(subrepo_of("sub/a.rs", &roots), "sub");
    assert_eq!(subrepo_of("top.rs", &roots), ""); // top repo
    assert_eq!(subrepo_of("other/x.rs", &roots), "other");
}

fn entry(rel: &str, is_dir: bool) -> Entry {
    Entry {
        rel: rel.to_string(),
        is_dir,
    }
}

#[test]
fn subrepo_roots_detects_git_boundaries() {
    let entries = vec![
        entry("a", true),
        entry("a/f.rs", false),
        entry("plain", true),
        entry("plain/f.rs", false),
    ];
    let roots = subrepo_roots(&entries, &vec![true, false, false, false]);
    assert!(roots.iter().any(|p| p == "a"), "missed sub-repo: {roots:?}");
    assert!(
        !roots.iter().any(|p| p == "plain"),
        "plain dir flagged as sub-repo"
    );
}

#[test]
fn files_are_picked_by_extension() {
    let entries = vec![
        entry("src", true),
        entry("src/a.rs", false),
        entry("src/B.RS", false),
        entry("src/c.py", false),
        entry("src/.rs", false),
        entry("LICENSE", false),
    ];
    assert_eq!(
        files_with_ext(&entries, &strings(&["rs"])),
        strings(&["src/a.rs", "src/B.RS"])
    );
    assert_eq!(files_with_ext(&entries, &vec![]).len(), 5);
    assert!(is_skipped("target", &vec![]));
    assert!(default_skip().contains(&"target".to_string()));
    assert!(!is_skipped("src", &vec![]));
    assert!(is_skipped("src", &strings(&["src"])));
}

// ── the configuration ───────────────────────────────────────────────────────

fn plain_spec(id: &str) -> NodeSpec {
    NodeSpec {
        id: id.to_string(),
        kind: None,
        plane: None,
        parent: None,
        anchors: vec![],
        depends_on: vec![],
        facets: Table::new(),
    }
}

#[test]
fn roundtrip_and_tree_invariants_hold() {
    let mut codec = spec("codec", "codec");
    codec
        .facets
        .insert("language".to_string(), "rust".to_string());
    let mut lml = plain_spec("codec/lml");
    lml.kind = Some("atom".to_string());
    lml.parent = Some("codec".to_string());
    lml.depends_on = strings(&["codec"]);
    let cfg = config(vec![codec, lml], None);
    assert_eq!(cfg.nodes.len(), 2);
    let tree = cfg.into_tree(None);
    assert!(tree.check().is_empty(), "invariants: {:?}", tree.check());
    // parent/child wired both ways
    assert!(tree
        .nodes
        .get("codec")
        .unwrap()
        .children
        .contains(&"codec/lml".to_string()));
}

#[test]
fn default_parent_is_root() {
    let tree = config(vec![plain_spec("a")], None).into_tree(None);
    assert_eq!(tree.nodes.get("a").unwrap().parent.as_deref(), Some("."));
    assert!(tree.check().is_empty());
}

#[test]
fn a_configuration_is_derived_from_directories() {
    let entries = vec![
        entry("src", true),
        entry("src/a.rs", false),
        entry("docs", true),
        entry("docs/x.md", false),
    ];
    let files = vec![
        strings(&["a.rs"]),
        vec![],
        strings(&["x.md"]),
        vec![],
    ];
    let cfg = Config::from_dir_with_skip(&entries, &files, &strings(&["vendor"]));
    assert!(cfg.bonsai.skip.contains(&"vendor".to_string()));
    let ids: Vec<&str> = cfg.nodes.iter().map(|n| n.id.as_str()).collect();
    assert!(ids.contains(&"src") && ids.contains(&"docs"), "{ids:?}");
    let tree = cfg.into_tree(Some(&entries));
    assert!(tree.check().is_empty(), "{:?}", tree.check());
    // every file has one home
    assert_eq!(
        tree.nodes.get("src/a.rs").unwrap().parent.as_deref(),
        Some("src")
    );
    assert_eq!(tree.measure_root(Measure::Atoms), 2);
}

#[test]
fn a_plane_that_is_left_out_is_told_from_the_path() {
    let mut told = plain_spec("docs/intro.md");
    let tree = config(vec![plain_spec("docs/intro.md"), plain_spec("src/docs.rs")], None)
        .into_tree(None);
    assert_eq!(tree.nodes.get("docs/intro.md").unwrap().plane, Plane::Docs);
    assert_eq!(tree.nodes.get("src/docs.rs").unwrap().plane, Plane::Code);
    told.plane = Some("code".to_string());
    let tree = config(vec![told], None).into_tree(None);
    assert_eq!(tree.nodes.get("docs/intro.md").unwrap().plane, Plane::Code);
}

#[test]
fn a_kind_that_is_left_out_is_told_from_the_children() {
    let mut child = plain_spec("a/b");
    child.parent = Some("a".to_string());
    let mut empty = plain_spec("c");
    empty.kind = Some("composite".to_string());
    let cfg = config(vec![plain_spec("a"), child, empty, plain_spec("src")], None);
    let tree = cfg.into_tree(None);
    let kind = |t: &Tree, id: &str| t.nodes.get(id).unwrap().kind;
    assert_eq!(kind(&tree, "a"), Kind::Composite);
    assert_eq!(kind(&tree, "a/b"), Kind::Atom);
    assert_eq!(kind(&tree, "c"), Kind::Composite);
    assert_eq!(kind(&tree, "src"), Kind::Atom);
    assert_eq!(kind(&tree, "."), Kind::Composite);
    assert!(tree.check().is_empty());
    // files are children too
    let tree = cfg.into_tree(Some(&vec![entry("src/x.rs", false)]));
    assert_eq!(kind(&tree, "src"), Kind::Composite);
    assert_eq!(kind(&tree, "src/x.rs"), Kind::Atom);
    // of two nodes with one id the later one counts
    let mut later = plain_spec("d");
    later.kind = Some("composite".to_string());
    let tree = config(vec![plain_spec("d"), later], None).into_tree(None);
    assert_eq!(kind(&tree, "d"), Kind::Composite);
}

#[test]
fn a_file_without_a_node_above_it_belongs_to_the_root() {
    let mut cfg = config(vec![plain_spec("lib")], None);
    cfg.bonsai.root = "app".to_string();
    let entries = vec![entry("x/y.rs", false), entry("lib/z.rs", false), entry("top.rs", false)];
    let tree = cfg.into_tree(Some(&entries));
    let home = |id: &str| tree.nodes.get(id).unwrap().parent.clone().unwrap();
    assert_eq!(home("x/y.rs"), "app");
    assert_eq!(home("lib/z.rs"), "lib");
    assert_eq!(home("top.rs"), "app");
    assert!(!tree.nodes.contains("."));
    assert!(tree.check().is_empty(), "{:?}", tree.check());
}

#[test]
fn a_tree_is_folded_from_the_leaves_up() {
    let t = sample();
    assert_eq!(t.fold_order(), vec!["a.1", "a", "b", "root"]);
    let calls = std::cell::RefCell::new(Vec::new());
    t.fold(&|node: &Node, kids: &[usize]| {
        calls.borrow_mut().push(node.id.clone());
        1 + kids.iter().sum::<usize>()
    });
    assert_eq!(calls.into_inner(), t.fold_order());
}
