//! Findings, what becomes of them, and how they are shown.
use bonsai::admission::{changed_files, collect, global_rules, judge};
use bonsai::clones::CloneGroup;
use bonsai::commands::{command_parts, ffi_lines};
use bonsai::config::Rules;
use bonsai::ffi::{after_keyword, parse_pyo3_name, scan, ExportKind, FfiGraph};
use bonsai::finding::{rules, Finding, Location, Report, Severity};
use bonsai::hook::{install, status, uninstall, HookStatus, Install, Removal, HOOK_MARK};
use bonsai::json::{list_of_strings, maybe, truth};
use bonsai::lean::LeanReport;
use bonsai::model::{Kind, Node, Plane};
use bonsai::moves::Workspace;
use bonsai::summary::lean_findings;
use bonsai::tree::Tree;

fn file(f: &str) -> Location {
    Location::file(f.to_string())
}

fn sample() -> Report {
    Report::new(vec![
        Finding::new(
            "duplicate",
            Severity::Warning,
            "2 identical copies".to_string(),
            file("a/x.rs"),
        )
        .with_related(vec![file("b/x.rs")])
        .with_fix("keep one, replace the rest with a reference".to_string()),
        Finding::new(
            "dead-code",
            Severity::Error,
            "fn unused is never called".to_string(),
            Location::at("src/lib.rs".to_string(), 42),
        ),
    ])
}

#[test]
fn severity_and_counts() {
    let r = sample();
    assert!(r.has_errors());
    assert_eq!(r.counts(), (1, 1, 0));
}

#[test]
fn json_is_valid_and_contains_findings() {
    let v: serde_json::Value = serde_json::from_str(&sample().to_json()).unwrap();
    assert_eq!(v["tool"], "bonsai");
    assert_eq!(v["findings"].as_array().unwrap().len(), 2);
    assert_eq!(v["findings"][0]["rule"], "duplicate");
    assert_eq!(v["findings"][0]["related"][0]["file"], "b/x.rs");
    // laid out over lines, with the same contents
    assert!(sample().to_json().lines().count() > 10);
    let line: serde_json::Value = serde_json::from_str(&sample().json_line()).unwrap();
    assert_eq!(line, v);
}

#[test]
fn sarif_is_valid_2_1_0_shape() {
    let v: serde_json::Value = serde_json::from_str(&sample().to_sarif()).unwrap();
    assert_eq!(v["version"], "2.1.0");
    assert_eq!(v["runs"][0]["tool"]["driver"]["name"], "bonsai");
    let results = v["runs"][0]["results"].as_array().unwrap();
    assert_eq!(results.len(), 2);
    // dead-code finding carries a line region and error level
    let dead = results.iter().find(|r| r["ruleId"] == "dead-code").unwrap();
    assert_eq!(dead["level"], "error");
    assert_eq!(
        dead["locations"][0]["physicalLocation"]["region"]["startLine"],
        42
    );
    // duplicate finding carries a related location + fix in the message
    let dup = results.iter().find(|r| r["ruleId"] == "duplicate").unwrap();
    assert!(dup["message"]["text"].as_str().unwrap().contains("fix:"));
    assert_eq!(
        dup["relatedLocations"][0]["physicalLocation"]["artifactLocation"]["uri"],
        "b/x.rs"
    );
    let line: serde_json::Value = serde_json::from_str(&sample().sarif_line()).unwrap();
    assert_eq!(line, v);
}

#[test]
fn findings_are_shown_as_text() {
    let text = sample().to_text();
    assert!(text.contains("[duplicate] a/x.rs — 2 identical copies\n"));
    assert!(text.contains("      ↔ b/x.rs\n"));
    assert!(text.contains("      ↳ fix: keep one, replace the rest with a reference\n"));
    assert!(text.contains("[dead-code] src/lib.rs:42 — fn unused is never called\n"));
    assert!(text.ends_with("\n1 error(s), 1 warning(s), 0 info\n"));
    let levels: Vec<&str> = [Severity::Error, Severity::Warning, Severity::Info]
        .iter()
        .map(|s| s.sarif_level())
        .collect();
    assert_eq!(levels, vec!["error", "warning", "note"]);
    assert!(rules().iter().any(|(id, _)| id == "dead-code"));
}

#[test]
fn strings_are_quoted_as_json_wants_them() {
    let nasty: Vec<String> = vec![
        "plain".into(),
        "quote \" and \\ slash /".into(),
        "line\nfeed\ttab\rreturn\u{8}\u{c}".into(),
        "control \u{1} \u{1f} \u{7f}".into(),
        "wide é ✗ 🦀".into(),
    ];
    assert_eq!(
        list_of_strings(&nasty),
        serde_json::to_string(&nasty).unwrap()
    );
    assert_eq!(maybe(&None), "null");
    assert_eq!(maybe(&Some("a".into())), "\"a\"");
    assert_eq!(truth(true), "true");
}

// ── admission ───────────────────────────────────────────────────────────────

fn workspace(pairs: &[(&str, &str)]) -> Workspace {
    let pairs = pairs
        .iter()
        .map(|(path, text)| (path.to_string(), text.to_string()))
        .collect();
    Workspace::from_pairs(".".to_string(), pairs)
}

fn error(rule: &str, at: Location) -> Finding {
    Finding::new(rule, Severity::Error, "m".to_string(), at)
}

fn allowing(allow: &[&str]) -> Option<Rules> {
    Some(Rules {
        layers: vec![],
        max_files_per_dir: 0,
        enforce_placement: false,
        max_layers: 0,
        max_depth: 0,
        forbid_cycles: false,
        allow: allow.iter().map(|s| s.to_string()).collect(),
    })
}

#[test]
fn changed_files_are_those_that_are_listed() {
    assert_eq!(changed_files(&None, &None), None);
    let staged = Some("b.rs\n\n  a.rs  \nb.rs\n".to_string());
    let since = Some("c.rs\n".to_string());
    assert_eq!(
        changed_files(&staged, &since),
        Some(vec!["a.rs".into(), "b.rs".into(), "c.rs".into()])
    );
    // nothing could be listed: nothing is in scope
    assert_eq!(changed_files(&Some(String::new()), &None), Some(vec![]));
}

#[test]
fn narrowing_the_scope_keeps_what_concerns_the_repository() {
    let findings = || {
        let mut v: Vec<Finding> = global_rules()
            .iter()
            .map(|r| error(r, file("bonsai.lean.json")))
            .collect();
        v.push(error("misplaced", file("a.rs")));
        v.push(error("misplaced", file("b.rs")));
        v
    };
    let ws = workspace(&[]);
    let all = judge(findings(), &None, &ws, &None);
    assert_eq!(all.report.findings.len(), 7);
    let some = judge(findings(), &None, &ws, &Some(vec!["a.rs".to_string()]));
    assert_eq!(some.report.findings.len(), 6);
    assert!(some.report.findings.iter().all(|f| f.location.file != "b.rs"));
    assert_eq!(some.changed, Some(1));
}

#[test]
fn what_is_let_through_is_said() {
    let ws = workspace(&[("w.rs", "fn f() {} // bonsai:allow\n")]);
    let findings = vec![
        error("conformance-layering", file("legacy/x.rs")),
        error("dead-code", Location::at("w.rs".to_string(), 1)),
        Finding::new(
            "structure-cycle",
            Severity::Warning,
            "round".to_string(),
            file("c.rs"),
        ),
    ];
    let a = judge(
        findings,
        &allowing(&["conformance-layering:legacy/**"]),
        &ws,
        &Some(vec!["c.rs".to_string()]),
    );
    assert_eq!(a.failure(), None);
    assert_eq!(
        a.lines(12),
        vec![
            "  ⓘ 1 finding(s) exempted by the allow-list (migration valve):",
            "      [conformance-layering] legacy/x.rs",
            "  ⓘ 1 finding(s) waived inline (// bonsai:allow)",
            "  ⓘ diff-scoped to 1 changed file(s) (repo-wide gates still apply)",
            "  ▲ [structure-cycle] c.rs — round",
            "bonsai check: OK — 12 nodes, invariants + ratchet + conformance hold (1 warning(s), non-blocking)",
        ]
    );
}

#[test]
fn only_errors_refuse_a_change() {
    let ws = workspace(&[]);
    let a = judge(vec![error("misplaced", file("a.rs"))], &None, &ws, &None);
    assert_eq!(a.failure(), Some("bonsai check: 1 violation(s)".to_string()));
    assert_eq!(a.lines(3), vec!["  ✗ [misplaced] a.rs — m"]);
    let a = judge(vec![], &None, &ws, &None);
    assert_eq!(a.failure(), None);
    assert_eq!(
        a.lines(3),
        vec!["bonsai check: OK — 3 nodes, invariants + ratchet + conformance hold"]
    );
}

#[test]
fn everything_that_stands_against_a_repository_is_collected() {
    let mut t = Tree::new(".".to_string());
    t.insert(Node::new(".".to_string(), Kind::Composite, Plane::Code));
    let mut lost = Node::new("x".to_string(), Kind::Atom, Plane::Code);
    lost.parent = Some(".".to_string());
    t.insert(lost); // the root does not list it
    let fs = collect(
        &t,
        &vec!["worse".to_string()],
        &None,
        None,
        &vec![],
        &workspace(&[]),
        vec![error("blueprint-lock", file("b.toml"))],
    );
    let rules: Vec<&str> = fs.iter().map(|f| f.rule.as_str()).collect();
    assert!(rules.contains(&"tree-invariant"));
    assert!(rules.ends_with(&["leanness-ratchet", "blueprint-lock"]));
    assert!(fs
        .iter()
        .filter(|f| f.rule == "leanness-ratchet")
        .all(|f| f.message == "worse" && f.location.file == "bonsai.lean.json"));
}

#[test]
fn copied_functions_are_findings() {
    let clones = vec![CloneGroup {
        sites: vec![
            ("a.rs".to_string(), "f".to_string(), 3),
            ("b.rs".to_string(), "g".to_string(), 9),
        ],
        lines: 6,
    }];
    let fs = lean_findings(vec![], &clones, &LeanReport::default(), &vec![], &None);
    assert_eq!(fs.len(), 1);
    assert_eq!(fs[0].message, "`f` (6 lines) is copy-pasted across 2 sites");
    assert_eq!(fs[0].location.line, Some(3));
    assert_eq!(fs[0].related[0].line, Some(9));
}

// ── the hook ────────────────────────────────────────────────────────────────

#[test]
fn a_fresh_hook_is_made_and_goes_again() {
    let text = match install(None) {
        Install::Create(text) => text,
        other => panic!("{other:?}"),
    };
    assert!(text.starts_with("#!/bin/sh\n"));
    assert!(text.contains(HOOK_MARK));
    assert!(text.contains("bonsai check --staged --root"));
    assert_eq!(install(Some(&text)), Install::Present);
    assert_eq!(status(Some(&text)), HookStatus::Installed);
    assert_eq!(uninstall(Some(&text)), Removal::Remove);
}

#[test]
fn a_hook_of_somebody_else_is_kept() {
    for theirs in ["#!/bin/bash\nmake lint", "#!/bin/bash\nmake lint\n"] {
        let theirs = theirs.to_string();
        assert_eq!(status(Some(&theirs)), HookStatus::Foreign);
        let both = match install(Some(&theirs)) {
            Install::Append(text) => text,
            other => panic!("{other:?}"),
        };
        assert!(both.starts_with(&theirs));
        assert_eq!(install(Some(&both)), Install::Present);
        assert_eq!(
            uninstall(Some(&both)),
            Removal::Rewrite("#!/bin/bash\nmake lint\n".to_string())
        );
    }
    assert_eq!(
        uninstall(Some(&"#!/bin/bash\n".to_string())),
        Removal::Nothing
    );
    assert_eq!(uninstall(None), Removal::Nothing);
    assert_eq!(status(None), HookStatus::Absent);
}

// ── Rust and Python ─────────────────────────────────────────────────────────

fn files(pairs: &[(&str, &str)]) -> Vec<(String, String)> {
    pairs
        .iter()
        .map(|(p, t)| (p.to_string(), t.to_string()))
        .collect()
}

#[test]
fn stitches_pymodule_to_python_import() {
    let g = scan(&files(&[
        (
            "rust/lib.rs",
            r#"
#[pyfunction]
fn encode(x: i32) -> i32 { x }

#[pyo3(name = "decode_fast")]
#[pyfunction]
fn decode(x: i32) -> i32 { x }

#[pymodule]
fn lamquant_lml(m: &PyModule) -> PyResult<()> { Ok(()) }
"#,
        ),
        (
            "py/train.py",
            "import os\nfrom lamquant_lml import encode, decode_fast\n",
        ),
    ]));
    // exports: encode (fn), decode_fast (renamed fn), lamquant_lml (module)
    assert!(g
        .exports
        .iter()
        .any(|e| e.py_name == "encode" && e.kind == ExportKind::Function));
    assert!(
        g.exports.iter().any(|e| e.py_name == "decode_fast"),
        "{:?}",
        g.exports
    );
    assert!(g
        .exports
        .iter()
        .any(|e| e.py_name == "lamquant_lml" && e.kind == ExportKind::Module));
    // edge: train.py ↔ lamquant_lml, pulling encode + decode_fast
    let edge = g.edges.iter().find(|e| e.module == "lamquant_lml");
    assert!(edge.is_some(), "no FFI edge: {:?}", g.edges);
    let edge = edge.unwrap();
    assert!(edge.names.contains(&"encode".to_string()));
    assert!(edge.py_file.ends_with("train.py"));
    assert_eq!(
        ffi_lines(&g),
        vec![
            "bonsai ffi — 3 PyO3 exports (1 module(s)), 2 Python imports, 1 stitched edge(s)",
            "",
            "  ⟷ lamquant_lml  (Rust: rust/lib.rs)",
            "     py/train.py:2  imports [encode, decode_fast]",
        ]
    );
}

#[test]
fn no_edge_without_a_matching_module() {
    let g = scan(&files(&[
        ("rust/lib.rs", "#[pyfunction]\nfn f() {}\n"),
        ("py/a.py", "import numpy as np\n"),
    ]));
    assert!(g.edges.is_empty(), "spurious edge: {:?}", g.edges);
    assert_eq!(
        ffi_lines(&FfiGraph::default())[1],
        "  (no FFI boundary found — no #[pymodule] imported from Python under this root)"
    );
}

#[test]
fn imports_are_read_in_every_form() {
    let g = scan(&files(&[
        ("r.rs", "#[pyclass]\npub struct Codec;\n#[pymodule]\nfn ext(m: M) {}\n"),
        (
            "p.py",
            "import a, pkg.ext as e\nfrom pkg.ext import (x as y, z)\nfrom ext import *\n  import  \n",
        ),
    ]));
    assert_eq!(g.exports[0].kind, ExportKind::Class);
    assert_eq!(g.exports[0].py_name, "Codec");
    assert_eq!(g.exports[0].line, 2);
    assert_eq!(g.exports[0].module, None);
    let edges: Vec<(usize, Vec<String>)> = g
        .edges
        .iter()
        .map(|e| (e.py_line, e.names.clone()))
        .collect();
    assert_eq!(
        edges,
        vec![
            (1, vec![]),
            (2, vec!["x".to_string(), "z".to_string()]),
            (3, vec![]),
        ]
    );
    assert_eq!(
        parse_pyo3_name("#[pyo3(name = \"foo\")]"),
        Some("foo".to_string())
    );
    assert_eq!(parse_pyo3_name("#[pyo3(text_signature = \"()\")]"), None);
    assert_eq!(after_keyword("pub fn go(x)", "fn"), Some("go".to_string()));
    assert_eq!(after_keyword("elfn go(x)", "fn"), None);
}

#[test]
fn commands_are_taken_apart() {
    assert_eq!(command_parts("  "), None);
    assert_eq!(
        command_parts("python3  docs/compose.py --check"),
        Some((
            "python3".to_string(),
            vec!["docs/compose.py".to_string(), "--check".to_string()]
        ))
    );
    assert_eq!(command_parts("make"), Some(("make".to_string(), vec![])));
}
