//! What is learned from the contents of files: hashes, copies, how lean a repository is.
use bonsai::cache::{Cache, CacheEntry, CACHE_VERSION};
use bonsai::config::Config;
use bonsai::digest::{hash_to_hex, hex_to_hash};
use bonsai::finding::{Finding, Location, Severity};
use bonsai::lean::{
    analyze, analyze_from_scan, dead_code_count, exact_dups, misplacement_count, near_candidates,
    LeanCeilings, LeanReport,
};
use bonsai::moves::Workspace;
use bonsai::order::{link, Table};
use bonsai::scan::{
    build_cache, characterize, finish, fnv1a, plan_read, remember, shingles, FileFacts, Outcome,
    ReadPlan, Scan, ScanConfig,
};
use bonsai::scip::CodeGraph;
use bonsai::summary::{
    lean_findings, lean_lines, measure_leanness, with_signals, GraphSignals, NearPair,
};
use bonsai::tree::Tree;
use bonsai::walk::Entry;

type Stat = (u64, (i64, u32));

/// Reads files that stand in memory as the program reads those on disk.
fn scan_with(
    files: &[(&str, &[u8])],
    subrepos: &[&str],
    cfg: &ScanConfig,
    cache: Option<&Cache>,
    mtime: (i64, u32),
) -> Scan {
    let subrepos: Vec<String> = subrepos.iter().map(|s| s.to_string()).collect();
    let (facts, outcomes): (Vec<FileFacts>, Vec<Outcome>) = files
        .iter()
        .map(|(rel, bytes)| {
            let stat: Option<Stat> = Some((bytes.len() as u64, mtime));
            let plan = plan_read(rel, &subrepos, cfg, cache, false, stat);
            finish(plan, Some(bytes.to_vec()), cfg.want_shingles)
        })
        .unzip();
    Scan::collect(".".to_string(), facts, &outcomes, subrepos, cfg)
}

fn scan(files: &[(&str, &[u8])], subrepos: &[&str], cfg: &ScanConfig) -> Scan {
    scan_with(files, subrepos, cfg, None, (1, 0))
}

/// The tree of a repository with these files and directories.
fn tree(files: &[(&str, &[u8])], empty: &[&str]) -> Tree {
    let mut entries: Vec<Entry> = Vec::new();
    let mut names: Vec<Vec<String>> = Vec::new();
    let mut dirs: Vec<String> = empty.iter().map(|s| s.to_string()).collect();
    for (f, _) in files {
        let mut at = 0;
        while let Some(i) = f[at..].find('/') {
            dirs.push(f[..at + i].to_string());
            at += i + 1;
        }
    }
    dirs.sort();
    dirs.dedup();
    for d in dirs {
        entries.push(Entry {
            rel: d,
            is_dir: true,
        });
        names.push(vec![]);
    }
    for (f, _) in files {
        entries.push(Entry {
            rel: f.to_string(),
            is_dir: false,
        });
        names.push(vec![]);
    }
    let t = Config::from_dir(&entries, &names).into_tree(Some(&entries));
    assert!(t.check().is_empty(), "{:?}", t.check());
    t
}

fn report(files: &[(&str, &[u8])], subrepos: &[&str], empty: &[&str]) -> LeanReport {
    let t = tree(files, empty);
    assert!(t.can_fold());
    analyze(&t, &scan(files, subrepos, &ScanConfig::gate()))
}

fn near(files: &[(&str, &[u8])], subrepos: &[&str], least: f64) -> Vec<(String, String, f64)> {
    let s = scan(files, subrepos, &ScanConfig::with_shingles());
    near_candidates(&s)
        .into_iter()
        .map(|c| (c.a, c.b, c.shared as f64 / c.total as f64))
        .filter(|(_, _, sim)| *sim >= least && *sim < 1.0)
        .collect()
}

// ── hashes and the cache ────────────────────────────────────────────────────

#[test]
fn hex_roundtrips() {
    let h = [
        0u8, 1, 2, 255, 128, 64, 32, 16, 8, 4, 2, 1, 0, 0, 0, 0, 0, 0, 0, 0, 0, 0, 0, 0, 0, 0, 0,
        0, 0, 0, 0, 42,
    ];
    assert_eq!(hex_to_hash(&hash_to_hex(&h)), Some(h));
    assert_eq!(hex_to_hash("nope"), None);
    assert_eq!(hex_to_hash(&"z".repeat(64)), None);
}

#[test]
fn hashes_are_written_in_small_letters() {
    let h = blake3::hash(b"x");
    assert_eq!(hash_to_hex(h.as_bytes()), h.to_hex().to_string());
    assert_eq!(hex_to_hash(&"AB".repeat(32)), Some([0xab; 32]));
    assert_eq!(hex_to_hash(&"+0".repeat(32)), None);
    assert_eq!(hex_to_hash(&"0+".repeat(32)), None);
}

fn entry() -> CacheEntry {
    CacheEntry {
        size: 10,
        mtime_s: 5,
        mtime_ns: 7,
        hash: Some("ab".repeat(32)),
        lines: 3,
        is_binary: false,
    }
}

fn cache(version: u32) -> Cache {
    let mut entries: Table<CacheEntry, false> = Table::new();
    entries.insert("a.rs".to_string(), entry());
    Cache { version, entries }
}

#[test]
fn version_mismatch_yields_empty() {
    assert!(Cache::accept(Some(cache(CACHE_VERSION + 99)))
        .entries
        .is_empty());
    assert!(Cache::accept(None).entries.is_empty());
}

#[test]
fn save_then_load_roundtrips() {
    let back = Cache::accept(Some(cache(CACHE_VERSION)));
    assert_eq!(back.entries.len(), 1);
    assert!(back.entries.get("a.rs").unwrap().matches(10, (5, 7)));
    assert!(!back.entries.get("a.rs").unwrap().matches(11, (5, 7)));
    assert!(!back.entries.get("a.rs").unwrap().matches(10, (5, 8)));
}

#[test]
fn incremental_cache_reuses_unchanged_files() {
    let cfg = ScanConfig::gate().with_cache(ScanConfig::default_cache_path("."));
    assert!(cfg.use_cache());
    let files: [(&str, &[u8]); 2] = [("a.rs", b"fn a() {}\n"), ("b.rs", b"fn b() {}\n")];
    let cold = scan_with(&files, &[], &cfg, None, (1, 0));
    assert_eq!(cold.cache_hits, 0);
    let stats: Vec<Option<Stat>> = files
        .iter()
        .map(|(_, b)| Some((b.len() as u64, (1, 0))))
        .collect();
    let remembered = build_cache(&cold.files, &stats);
    assert_eq!(remembered.version, CACHE_VERSION);

    // warm run: both files unchanged → both served from cache, identical hashes
    let warm = scan_with(&files, &[], &cfg, Some(&remembered), (1, 0));
    assert_eq!(warm.cache_hits, 2, "both files should hit the cache");
    assert_eq!(warm.files[0].hash, cold.files[0].hash);
    assert_eq!(warm.files[0].lines, cold.files[0].lines);

    // change one file → it misses, the other still hits
    let changed: [(&str, &[u8]); 2] = [("a.rs", b"fn a() { changed(); }\n"), files[1]];
    let after = scan_with(&changed, &[], &cfg, Some(&remembered), (1, 0));
    assert_eq!(after.cache_hits, 1, "only the unchanged file should hit");
    assert_ne!(after.files[0].hash, cold.files[0].hash);
}

#[test]
fn cache_never_masks_same_size_content_change() {
    let cfg = ScanConfig::gate().with_cache("c.json".to_string());
    let one: [(&str, &[u8]); 1] = [("x.rs", b"AAAA\n")];
    let two: [(&str, &[u8]); 1] = [("x.rs", b"BBBB\n")];
    let first = scan_with(&one, &[], &cfg, None, (1, 0));
    let remembered = build_cache(&first.files, &vec![Some((5, (1, 0)))]);
    // same length, new mtime
    let second = scan_with(&two, &[], &cfg, Some(&remembered), (2, 0));
    assert_ne!(
        first.files[0].hash, second.files[0].hash,
        "same-size content change must not be masked by the cache"
    );
}

#[test]
fn what_cannot_be_read_in_a_cache_is_read_again() {
    let mut c = cache(CACHE_VERSION);
    let mut e = entry();
    e.hash = Some("not hex".to_string());
    assert!(!e.is_legible());
    c.entries.insert("a.rs".to_string(), e);
    let cfg = ScanConfig::gate().with_cache("c.json".to_string());
    let plan = plan_read("a.rs", &vec![], &cfg, Some(&c), false, Some((10, (5, 7))));
    assert!(matches!(plan, ReadPlan::Read(_)));
    let f = FileFacts {
        rel: "a.rs".to_string(),
        subrepo: String::new(),
        size: 10,
        is_binary: false,
        hash: Some([7; 32]),
        lines: 3,
        shingles: vec![],
    };
    let e = remember(&f, (10, (5, 7)));
    assert!(e.is_legible() && e.matches(10, (5, 7)));
    assert_eq!(e.hash, Some("07".repeat(32)));
}

// ── the scan ────────────────────────────────────────────────────────────────

#[test]
fn parallel_scan_hashes_and_classifies() {
    let s = scan(
        &[
            ("a.rs", b"fn main() {}\nlet x = 1;\n"),
            ("b.rs", b"fn main() {}\nlet x = 1;\n"), // identical
            ("bin", &[0u8, 1, 2, 3, 0, 9]),          // NUL → binary
            ("c.rs", b"fn other() {}\n"),
            ("empty", b""),
            ("latin", &[0xe9, 0x0a]), // not UTF-8
        ],
        &[],
        &ScanConfig::gate(),
    );
    let by = |name: &str| s.files.iter().find(|f| f.rel_str() == name).unwrap();
    // identical files hash equal; distinct file differs
    assert_eq!(by("a.rs").hash, by("b.rs").hash);
    assert_ne!(by("a.rs").hash, by("c.rs").hash);
    assert_eq!(
        by("c.rs").hash,
        Some(*blake3::hash(b"fn other() {}\n").as_bytes())
    );
    // binary flagged; empty has no hash (never groups)
    assert!(by("bin").is_binary);
    assert!(by("latin").is_binary);
    assert!(!by("a.rs").is_binary);
    assert!(by("empty").hash.is_none());
    // line counts (final unterminated line counted)
    assert_eq!(by("c.rs").lines, 1);
    assert_eq!(s.lines_by_rel().get("a.rs"), Some(&2));
}

#[test]
fn shingles_are_stable_and_skip_noise() {
    let s1 = shingles("let value = compute(x);\n}\n{\nreal line here\n");
    let s2 = shingles("real line here\nlet value = compute(x);\n");
    // same two meaningful lines, braces dropped, order-independent (sorted)
    assert_eq!(s1, s2);
    assert_eq!(s1.len(), 2);
    // determinism across calls
    assert_eq!(shingles("alpha beta gamma"), shingles("alpha beta gamma"));
}

#[test]
fn lines_are_hashed_as_documented() {
    // the published values of this hash
    assert_eq!(fnv1a(b""), 0xcbf2_9ce4_8422_2325);
    assert_eq!(fnv1a(b"a"), 0xaf63_dc4c_8601_ec8c);
    assert_eq!(fnv1a(b"foobar"), 0x85944171_f73967e8);
}

#[test]
fn shingles_only_when_requested() {
    let files: [(&str, &[u8]); 1] = [("a.rs", b"meaningful line one\nmeaningful line two\n")];
    let gate = scan(&files, &[], &ScanConfig::gate());
    assert!(gate.files[0].shingles.is_empty(), "gate must not shingle");
    let full = scan(&files, &[], &ScanConfig::with_shingles());
    assert_eq!(full.files[0].shingles.len(), 2, "full scan must shingle");
}

#[test]
fn symlinks_are_not_followed_or_duplicated() {
    let cfg = ScanConfig::gate();
    let real = b"pub fn a() { work(); }\n";
    let mut files = scan(&[("real.rs", real)], &[], &cfg).files;
    match plan_read(
        "link.rs",
        &vec![],
        &cfg,
        None,
        true,
        Some((real.len() as u64, (1, 0))),
    ) {
        ReadPlan::Done(f) => {
            assert!(f.hash.is_none(), "symlink must not be hashed");
            files.push(f);
        }
        other => panic!("{other:?}"),
    }
    let outcomes = vec![Outcome::Taken; files.len()];
    let s = Scan::collect(".".to_string(), files, &outcomes, vec![], &cfg);
    assert_eq!(s.unreadable, 0);
    let (groups, mirrors) = exact_dups(&s);
    assert!(
        groups.is_empty(),
        "symlink created a phantom duplicate: {groups:?}"
    );
    assert_eq!(mirrors, 0);
}

#[test]
fn oversized_files_are_capped_not_read() {
    let big = "x".repeat(5000);
    let s = scan(
        &[
            ("big1.dat", big.as_bytes()),
            ("big2.dat", big.as_bytes()),
            ("small.rs", b"fn a() {}\n"),
        ],
        &[],
        &ScanConfig::gate().max_bytes(1000),
    );
    assert_eq!(s.over_cap, 2, "both big files should be over cap");
    let (groups, _) = exact_dups(&s);
    assert!(
        groups.is_empty(),
        "capped files must not form a dup group: {groups:?}"
    );
    assert!(s.files[2].hash.is_some());
}

#[test]
fn identical_binaries_are_duplicates_but_never_shingled() {
    let blob: Vec<u8> = (0..256u16).map(|b| (b % 256) as u8).collect(); // contains NUL
    let s = scan(
        &[("a.bin", &blob), ("b.bin", &blob)],
        &[],
        &ScanConfig::with_shingles(),
    );
    let (groups, _) = exact_dups(&s);
    assert_eq!(
        groups.len(),
        1,
        "identical binaries should be one dup group"
    );
    assert_eq!(groups[0].files.len(), 2);
    for f in &s.files {
        assert!(f.is_binary, "both files are binary");
        assert!(f.shingles.is_empty(), "binaries must not be shingled");
    }
}

#[test]
fn empty_repo_yields_no_findings() {
    let s = scan(&[], &[], &ScanConfig::with_shingles());
    let (groups, mirrors) = exact_dups(&s);
    assert!(groups.is_empty() && mirrors == 0);
    assert!(near_candidates(&s).is_empty());
}

#[test]
fn files_that_could_not_be_read_are_counted() {
    let cfg = ScanConfig::gate();
    let f = match plan_read("a", &vec![], &cfg, None, false, Some((5, (1, 0)))) {
        ReadPlan::Read(f) => characterize(f, None, false),
        other => panic!("{other:?}"),
    };
    assert!(f.hash.is_none());
    let (gone, outcome) = finish(plan_read("b", &vec![], &cfg, None, false, None), None, false);
    assert_eq!(outcome, Outcome::Lost);
    assert_eq!((gone.size, gone.hash), (0, None));
    let (empty, taken) = finish(
        plan_read("c", &vec![], &cfg, None, false, Some((0, (1, 0)))),
        None,
        false,
    );
    let files = vec![f, gone, empty];
    let outcomes = vec![Outcome::Taken, outcome, taken];
    let s = Scan::collect(".".to_string(), files, &outcomes, vec![], &cfg);
    assert_eq!((s.unreadable, s.over_cap, s.cache_hits), (2, 0, 0));
}

// ── how lean a repository is ────────────────────────────────────────────────

const LICENSE: &str = "AGPL-3.0-or-later\n\nCopyright the authors.\nAll rights reserved here.\n";

fn probe() -> Vec<(&'static str, &'static [u8])> {
    vec![
        ("a/uniq.rs", b"fn other() {}\n"),
        ("a/x.rs", b"fn main() {}\nlet z = 1;\n"),
        ("b/y.rs", b"fn main() {}\nlet z = 1;\n"), // exact dup
    ]
}

#[test]
fn detects_exact_dup_and_empty_dir() {
    let r = report(&probe(), &[], &["empty"]);
    // x.rs and y.rs are byte-identical → one dup group of size 2 → 1 redundant file
    assert_eq!(r.dup_files(), 1, "groups: {:?}", r.dup_groups);
    // the `empty/` dir has no files
    assert!(
        r.empty_dirs.iter().any(|d| d == "empty"),
        "empty: {:?}",
        r.empty_dirs
    );
    assert_eq!(r.files, 3);
    assert_eq!(r.wasted_loc(), 2);
    assert_eq!(r.dead_code, None);
    assert_eq!(r.deferred.len(), 2);
}

#[test]
fn near_dup_detects_similar_not_identical() {
    let body: String = (0..20)
        .map(|i| format!("let v{i} = compute({i});\n"))
        .collect();
    // two files differing only in the last line → high Jaccard, not identical
    let x = format!("{body}return v0;\n");
    let y = format!("{body}return v19;\n");
    let nd = near(
        &[("a/x.rs", x.as_bytes()), ("b/y.rs", y.as_bytes())],
        &[],
        0.8,
    );
    assert_eq!(nd.len(), 1, "{nd:?}");
    assert!(nd[0].2 > 0.8 && nd[0].2 < 1.0);
    let s = scan(
        &[("a/x.rs", x.as_bytes()), ("b/y.rs", y.as_bytes())],
        &[],
        &ScanConfig::with_shingles(),
    );
    let c = near_candidates(&s);
    assert_eq!((c[0].shared, c[0].total), (20, 22));
}

#[test]
fn ratchet_flags_regression() {
    let r = report(&probe(), &[], &["empty"]);
    let ceilings = LeanCeilings::from_report(&r);
    assert!(
        ceilings.regressions(None, &r).is_empty(),
        "same state must hold"
    );
    // stricter ceilings (0 dups) must flag the existing dup as a regression
    let strict = LeanCeilings {
        max_dup_files: 0,
        max_empty_dirs: 0,
        max_dead: None,
        max_misplaced: None,
    };
    assert_eq!(strict.regressions(None, &r).len(), 2);
    let said = strict.regressions(Some("score fell".to_string()), &r);
    assert_eq!(said.len(), 3);
    assert_eq!(said[0], "score fell");
}

#[test]
fn cross_subrepo_license_is_not_duplication() {
    let l = LICENSE.as_bytes();
    let r = report(
        &[("modA/LICENSE", l), ("modB/LICENSE", l)],
        &["modA", "modB"],
        &[],
    );
    assert_eq!(
        r.dup_files(),
        0,
        "cross-repo LICENSE wrongly flagged: {:?}",
        r.dup_groups
    );
    assert!(
        r.cross_repo_mirrors >= 1,
        "should record the mirror informationally"
    );
}

#[test]
fn within_repo_duplicate_is_flagged() {
    let t = b"def f():\n    return 42\n\nx = f()\n";
    let r = report(&[("a/dup.py", t), ("b/dup.py", t)], &[], &[]);
    assert_eq!(
        r.dup_files(),
        1,
        "within-repo dup missed: {:?}",
        r.dup_groups
    );
    assert_eq!(r.cross_repo_mirrors, 0);
}

fn rows(last: &str) -> String {
    let body: String = (0..20).map(|i| format!("row {i}: value = {i}\n")).collect();
    format!("{body}{last}\n")
}

#[test]
fn cross_subrepo_near_dup_is_ignored() {
    let (a, b) = (rows("last line A"), rows("last line B"));
    let nd = near(
        &[("repoA/rows.md", a.as_bytes()), ("repoB/rows.md", b.as_bytes())],
        &["repoA", "repoB"],
        0.8,
    );
    assert!(nd.is_empty(), "cross-repo near-dup wrongly flagged: {nd:?}");
}

#[test]
fn within_repo_near_dup_is_flagged() {
    let (a, b) = (rows("last line A"), rows("last line B"));
    let nd = near(
        &[("x/a.md", a.as_bytes()), ("x/b.md", b.as_bytes())],
        &[],
        0.8,
    );
    assert_eq!(nd.len(), 1, "within-repo near-dup missed: {nd:?}");
    assert!(nd[0].2 > 0.8 && nd[0].2 < 1.0);
}

#[test]
fn nested_subrepo_boundary_is_innermost() {
    let t = b"alpha beta gamma delta epsilon\n";
    let r = report(
        &[("outer/inner/shared.txt", t), ("outer/shared.txt", t)],
        &["outer", "outer/inner"],
        &[],
    );
    assert_eq!(
        r.dup_files(),
        0,
        "nested-repo copy wrongly flagged: {:?}",
        r.dup_groups
    );
    assert!(r.cross_repo_mirrors >= 1);
}

#[test]
fn empty_files_are_not_duplicates() {
    let r = report(
        &[
            ("a/__init__.py", b""),
            ("b/__init__.py", b""),
            ("c/__init__.py", b""),
        ],
        &[],
        &[],
    );
    assert_eq!(
        r.dup_files(),
        0,
        "empty files wrongly grouped: {:?}",
        r.dup_groups
    );
}

#[test]
fn top_repo_dup_counts_alongside_subrepos() {
    let r = report(
        &[
            ("scripts/x.sh", b"#!/bin/sh\necho hello world\n"), // top-repo dup
            ("tools/x.sh", b"#!/bin/sh\necho hello world\n"),
            ("vendor/LICENSE", LICENSE.as_bytes()), // lone copy in a sub-repo — not a dup
        ],
        &["vendor"],
        &[],
    );
    assert_eq!(
        r.dup_files(),
        1,
        "top-repo dup miscounted: {:?}",
        r.dup_groups
    );
}

#[test]
fn scan_is_deterministic() {
    let texts: Vec<(String, String)> = (0..50)
        .map(|i| {
            (
                format!("m{}/f{i}.rs", i % 7),
                format!("fn f{i}() {{ compute({i}); }}\n"),
            )
        })
        .collect();
    let files: Vec<(&str, &[u8])> = texts
        .iter()
        .map(|(p, t)| (p.as_str(), t.as_bytes()))
        .collect();
    let key = |s: &Scan| -> Vec<(String, Option<[u8; 32]>)> {
        s.files.iter().map(|f| (f.rel_str(), f.hash)).collect()
    };
    let a = scan(&files, &[], &ScanConfig::with_shingles());
    let b = scan(&files, &[], &ScanConfig::with_shingles());
    assert_eq!(
        key(&a),
        key(&b),
        "scan output must be identical across runs"
    );
}

#[test]
fn without_a_code_graph_nothing_is_measured() {
    let ws = Workspace::from_pairs(".".to_string(), vec![]);
    assert_eq!(dead_code_count(None, &ws), None);
    assert_eq!(misplacement_count(None), None);
    let mut g = CodeGraph::new();
    link(&mut g.file_deps, "f/a.rs", "u/h.rs");
    link(&mut g.file_deps, "f/b.rs", "u/h.rs");
    assert_eq!(dead_code_count(Some(&g), &ws), Some(0));
    assert_eq!(misplacement_count(Some(&g)), Some(1));
    let signals = GraphSignals::measure(&g, &ws);
    assert_eq!(signals.misplaced.len(), 1);
    let r = report(&probe(), &[], &[]);
    let r = with_signals(r, &Some(signals));
    assert_eq!(r.dead_code, Some(0));
    assert_eq!(r.misplaced, Some(1));
    assert!(r.deferred.is_empty());
}

#[test]
fn what_is_lean_is_said_in_lines() {
    let files = probe();
    let t = tree(&files, &["empty"]);
    let s = scan(&files, &[], &ScanConfig::gate());
    let r = analyze_from_scan(&t, &s);
    let near = vec![NearPair {
        a: "a".to_string(),
        b: "b".to_string(),
        percent: "91".to_string(),
    }];
    let forgotten = vec![Finding::new(
        "forgotten-unwired",
        Severity::Warning,
        "m".to_string(),
        Location::file("src/o.rs".to_string()),
    )];
    let lines = lean_lines(&r, &s, &None, &forgotten, &vec![], &near, "0.6917");
    assert_eq!(
        lines,
        vec![
            "bonsai lean — 3 files, 4 composites, depth 3",
            "  forgotten      : 1 unwired module(s), 0 undocumented pub item(s)",
            "    ⚠ src/o.rs",
            "  leanness score : 0.6917  (1.0 = no measured waste)",
            "  duplicate files: 1 across 1 group(s), 2 redundant LOC",
            "  near-duplicates: 1 pair(s) (≥0.85 similar, not identical)",
            "    91%  a  ~  b",
            "  empty dirs     : 1",
            "    ×2  a/x.rs  ≡  b/y.rs",
            "  empty: empty",
            "  deferred (unmeasured — never faked as 0):",
            "    · dead-code (reachability — needs SCIP)",
            "    · misplacement (coupling fold — needs the dependency graph)",
        ]
    );
}

#[test]
fn what_is_lean_is_said_in_findings() {
    let r = report(&probe(), &[], &["empty"]);
    let near = vec![NearPair {
        a: "a".to_string(),
        b: "b".to_string(),
        percent: "91".to_string(),
    }];
    let mut g = CodeGraph::new();
    link(&mut g.file_deps, "f/a.rs", "u/h.rs");
    link(&mut g.file_deps, "u/h.rs", "f/a.rs");
    let ws = Workspace::from_pairs(".".to_string(), vec![]);
    let signals = Some(GraphSignals::measure(&g, &ws));
    let fs = lean_findings(vec![], &vec![], &r, &near, &signals);
    let rules: Vec<&str> = fs.iter().map(|f| f.rule.as_str()).collect();
    assert!(rules.starts_with(&["duplicate", "near-duplicate", "empty-dir", "structure-cycle"]));
    assert_eq!(fs[0].message, "2 byte-identical copies (2 lines each)");
    assert_eq!(fs[0].location.file, "a/x.rs");
    assert_eq!(fs[0].related[0].file, "b/y.rs");
    assert_eq!(fs[1].message, "91% similar to b");
    assert_eq!(
        fs[3].message,
        "dependency cycle among 2 modules: f/a.rs → u/h.rs"
    );
}

#[test]
fn everything_lean_is_measured_at_once() {
    let files = probe();
    let t = tree(&files, &["empty"]);
    let s = scan(&files, &[], &ScanConfig::gate());
    let body = "    let a = 1;\n    let b = 2;\n    let c = 3;\n    let d = 4;\n    let e = 5;\n    let f = 6;\n";
    let pairs = vec![
        ("src/lib.rs".to_string(), format!("mod a;\nfn f() {{\n{body}}}\n")),
        ("src/a.rs".to_string(), format!("fn g() {{\n{body}}}\n")),
        ("src/o.rs".to_string(), String::new()),
    ];
    let ws = Workspace::from_pairs(".".to_string(), pairs);
    let lean = measure_leanness(&t, &s, None, &ws, &ws);
    assert_eq!(lean.report.dup_files(), 1);
    assert!(lean.signals.is_none());
    assert_eq!(lean.report.deferred.len(), 2);
    assert_eq!(lean.clones.len(), 1);
    assert_eq!(lean.forgotten.len(), 1);
    assert_eq!(lean.forgotten[0].location.file, "src/o.rs");
    let g = CodeGraph::new();
    let lean = measure_leanness(&t, &s, Some(&g), &ws, &ws);
    assert_eq!(lean.report.dead_code, Some(0));
    assert!(lean.report.deferred.is_empty());
    let fs = lean_findings(lean.forgotten, &lean.clones, &lean.report, &vec![], &lean.signals);
    let rules: Vec<&str> = fs.iter().map(|f| f.rule.as_str()).collect();
    assert_eq!(
        rules,
        vec!["forgotten-unwired", "clone-function", "duplicate", "empty-dir"]
    );
}

#[test]
fn the_cache_stands_below_the_root() {
    for root in ["", "/", ".", "a/b", "a/"] {
        let want = std::path::Path::new(root).join(".bonsai").join("scan-cache.json");
        assert_eq!(ScanConfig::default_cache_path(root), want.to_str().unwrap());
    }
}

#[test]
fn a_cached_hash_with_a_sign_is_not_legible() {
    let mut e = entry();
    assert!(e.is_legible());
    e.hash = Some("+0".repeat(32));
    assert!(!e.is_legible());
    e.hash = None;
    assert!(e.is_legible());
}
