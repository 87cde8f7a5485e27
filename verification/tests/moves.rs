//! Moves that keep references intact, and the edits that carry them out.
use bonsai::apply::{planned_texts, touched_paths, PlanFault};
use bonsai::commands::{destination, plan_line, proposal, stray_line, Proposal};
use bonsai::moves::{
    apply_edits, mod_segments, plan_move, replace_path_prefix, Edit, EditKind, Move, MovePlan,
    Workspace,
};
use bonsai::scip::Misplacement;

fn ws(pairs: &[(&str, &str)]) -> Workspace {
    let pairs = pairs
        .iter()
        .map(|(path, text)| (path.to_string(), text.to_string()))
        .collect();
    Workspace::from_pairs(".".to_string(), pairs)
}

/// A tiny crate: `lib.rs` declares `mod a` + `mod util`; `a.rs` declares `mod b`;
/// `util.rs` references `crate::a::b::Widget`. Moving `a/b.rs` → `util/b.rs` must:
/// remove `mod b;` from a.rs, add it to util.rs, and rewrite the `crate::a::b` path.
fn crate_ws() -> Workspace {
    ws(&[
        ("src/lib.rs", "mod a;\nmod util;\n"),
        ("src/a.rs", "pub mod b;\n\npub fn hi() {}\n"),
        ("src/a/b.rs", "pub struct Widget;\n"),
        (
            "src/util.rs",
            "use crate::a::b::Widget;\n\npub fn make() -> Widget { Widget }\n",
        ),
    ])
}

fn mv(from: &str, to: &str) -> Move {
    Move {
        from: from.to_string(),
        to: to.to_string(),
    }
}

#[test]
fn relocates_mod_decl_and_rewrites_paths() {
    let ws = crate_ws();
    let plan = plan_move(&ws, &mv("src/a/b.rs", "src/util/b.rs"));

    // mod b removed from a.rs
    assert!(plan.edits.iter().any(|e| e.path == "src/a.rs"
        && e.kind == EditKind::Delete
        && e.before.contains("mod b")));
    // mod b added to util.rs
    assert!(plan.edits.iter().any(|e| e.path == "src/util.rs"
        && e.kind == EditKind::Insert
        && e.after.contains("mod b")));
    // crate::a::b → crate::util::b in util.rs
    assert!(plan.edits.iter().any(|e| e.path == "src/util.rs"
        && e.kind == EditKind::Replace
        && e.after.contains("crate::util::b::Widget")));
}

#[test]
fn path_boundary_is_respected() {
    // `crate::ab` must NOT match the `crate::a` prefix.
    assert_eq!(
        replace_path_prefix("use crate::ab::X;", "crate::a", "crate::z"),
        None
    );
    assert_eq!(
        replace_path_prefix("use crate::a::X;", "crate::a", "crate::z"),
        Some("use crate::z::X;".to_string())
    );
    assert_eq!(
        replace_path_prefix("let x: crate::a = y;", "crate::a", "crate::z"),
        Some("let x: crate::z = y;".to_string())
    );
}

#[test]
fn warns_on_missing_parent_module() {
    let ws = crate_ws();
    // move into a parent module that doesn't exist yet
    let plan = plan_move(&ws, &mv("src/a/b.rs", "src/nope/b.rs"));
    assert!(plan
        .warnings
        .iter()
        .any(|w| w.contains("does not exist yet")));
}

#[test]
fn refuses_crate_root_move() {
    let ws = crate_ws();
    let plan = plan_move(&ws, &mv("src/lib.rs", "src/core.rs"));
    assert!(plan.warnings.iter().any(|w| w.contains("crate root")));
}

#[test]
fn mod_segments_handles_forms() {
    assert_eq!(
        mod_segments("src/a/b.rs"),
        Some(vec!["a".into(), "b".into()])
    );
    assert_eq!(mod_segments("src/a/mod.rs"), Some(vec!["a".into()]));
    assert_eq!(mod_segments("src/lib.rs"), Some(vec![]));
    assert_eq!(mod_segments("src/main.rs"), Some(vec![]));
}

// ── byte-exact edit application ─────────────────────────────────────────────

fn ed(kind: EditKind, line: usize, after: &str) -> Edit {
    Edit {
        path: "f".into(),
        line,
        before: String::new(),
        after: after.to_string(),
        reason: String::new(),
        kind,
    }
}

#[test]
fn apply_edits_preserves_crlf() {
    // a Windows-authored file: every terminator is CRLF, no trailing newline on the last.
    let text = "use crate::a::b;\r\nfn main() {}\r\nlet x = 1;";
    let edits = [ed(EditKind::Replace, 1, "use crate::z::b;")];
    let refs: Vec<&Edit> = edits.iter().collect();
    let out = apply_edits(text, &refs).unwrap();
    // line 1 rewritten; CRLF terminators intact; last line still unterminated
    assert_eq!(out, "use crate::z::b;\r\nfn main() {}\r\nlet x = 1;");
    assert!(!out.contains("\r\r"));
}

#[test]
fn apply_edits_preserves_no_trailing_newline() {
    let text = "a\nb\nc"; // no final newline
    let out = apply_edits(text, &[&ed(EditKind::Replace, 2, "B")]).unwrap();
    assert_eq!(out, "a\nB\nc"); // still no trailing newline
}

#[test]
fn apply_edits_insert_after_unterminated_last_line() {
    let text = "a\nb"; // "b" has no terminator
    // insert after line 2: "b" gains a \n, the new line becomes the unterminated tail
    let out = apply_edits(text, &[&ed(EditKind::Insert, 2, "c")]).unwrap();
    assert_eq!(out, "a\nb\nc");
}

#[test]
fn apply_edits_insert_at_top_and_delete() {
    let text = "one\ntwo\n";
    let edits = [ed(EditKind::Insert, 0, "zero"), ed(EditKind::Delete, 2, "")];
    let refs: Vec<&Edit> = edits.iter().collect();
    let out = apply_edits(text, &refs).unwrap();
    assert_eq!(out, "zero\none\n");
}

#[test]
fn apply_edits_rejects_stale_out_of_range() {
    let text = "a\nb\n"; // 2 lines
    let err = apply_edits(text, &[&ed(EditKind::Replace, 9, "x")]).unwrap_err();
    assert_eq!(err, vec![9]);
    // an insert exactly at end (after last line) is valid, not stale
    assert!(apply_edits(text, &[&ed(EditKind::Insert, 2, "c")]).is_ok());
}

#[test]
fn apply_edits_untouched_file_roundtrips_byte_exact() {
    for text in ["", "a", "a\n", "a\r\nb\r\n", "x\ny\nz", "\n\n\n"] {
        assert_eq!(
            apply_edits(text, &[]).unwrap(),
            text,
            "roundtrip failed for {text:?}"
        );
    }
}

#[test]
fn inserted_lines_take_the_terminator_that_is_used_most() {
    let out = apply_edits("a\r\nb\r\nc\n", &[&ed(EditKind::Insert, 1, "x")]).unwrap();
    assert_eq!(out, "a\r\nx\r\nb\r\nc\n");
}

#[test]
fn edits_leave_the_other_lines_alone() {
    let text = "1\n2\r\n3\n4";
    let edits = [
        ed(EditKind::Replace, 4, "four"),
        ed(EditKind::Delete, 2, ""),
        ed(EditKind::Replace, 1, "one"),
    ];
    let refs: Vec<&Edit> = edits.iter().collect();
    assert_eq!(apply_edits(text, &refs).unwrap(), "one\n3\nfour");
}

#[test]
fn a_plan_is_carried_out_as_a_whole() {
    let ws = crate_ws();
    let plan = plan_move(&ws, &mv("src/a/b.rs", "src/util/b.rs"));
    assert_eq!(touched_paths(&plan), vec!["src/a.rs", "src/util.rs"]);
    assert_eq!(plan.touched_files(), 2);
    let new = planned_texts(&plan, &ws.files).unwrap();
    assert_eq!(new.len(), 2);
    assert_eq!(new[0].0, "src/a.rs");
    assert_eq!(new[0].1, "\npub fn hi() {}\n");
    assert!(new[1].1.contains("use crate::util::b::Widget;"));
    assert!(new[1].1.contains("mod b;"));
}

#[test]
fn a_stale_plan_changes_nothing() {
    let ws1 = crate_ws();
    let plan = plan_move(&ws1, &mv("src/a/b.rs", "src/util/b.rs"));
    let changed = ws(&[("src/a.rs", "pub mod b;\n"), ("src/util.rs", "")]);
    match planned_texts(&plan, &changed.files) {
        Err(PlanFault::Stale(path, lines)) => {
            assert_eq!(path, "src/util.rs");
            assert!(lines.contains(&1));
        }
        other => panic!("{other:?}"),
    }
    let gone = ws(&[("src/util.rs", "")]);
    assert_eq!(
        planned_texts(&plan, &gone.files),
        Err(PlanFault::Missing("src/a.rs".to_string()))
    );
}

#[test]
fn a_plan_is_shown_as_a_diff() {
    let ws = crate_ws();
    let plan = plan_move(&ws, &mv("src/a/b.rs", "src/util/b.rs"));
    let diff = plan.render_diff();
    assert!(diff.contains("--- src/a.rs"));
    assert!(diff.contains("--- src/util.rs"));
    assert!(diff.contains("crate::util::b::Widget"));
    let edits = plan.edits.len();
    let warnings = plan.warnings.len();
    assert_eq!(
        plan_line(&plan),
        format!("{edits} edit(s) across 2 file(s), {warnings} warning(s)")
    );
}

#[test]
fn other_languages_are_not_claimed() {
    let ws = crate_ws();
    let plan = plan_move(&ws, &mv("docs/a.md", "docs/b.md"));
    assert!(plan.edits.is_empty());
    assert!(!plan.warnings.is_empty());
}

#[test]
fn proposals_with_warnings_are_left_alone() {
    let mut plan = MovePlan {
        mv: None,
        edits: vec![],
        warnings: vec![],
    };
    assert_eq!(proposal(&plan, false), Proposal::Shown);
    assert_eq!(proposal(&plan, true), Proposal::Applied);
    plan.warnings.push("look".to_string());
    assert_eq!(proposal(&plan, true), Proposal::Skipped);
    assert_eq!(proposal(&plan, false), Proposal::Shown);
}

#[test]
fn a_stray_file_goes_to_the_directory_that_uses_it() {
    assert_eq!(destination("b", "a/x.rs"), "b/x.rs");
    assert_eq!(destination("", "a/x.rs"), "x.rs");
    assert_eq!(destination("c/d", "x.rs"), "c/d/x.rs");
    let m = Misplacement {
        file: "a/x.rs".to_string(),
        current_dir: "a".to_string(),
        suggested_dir: "b".to_string(),
        dependents: 3,
    };
    assert_eq!(stray_line(&m), "▸ a/x.rs used only from b/ (3 dependents)");
}

#[test]
fn line_numbers_speak_of_the_text_as_it_came() {
    let apply = |text: &str, edits: &[Edit]| {
        let refs: Vec<&Edit> = edits.iter().collect();
        apply_edits(text, &refs)
    };
    // a deleted line and one that is put behind it
    let swap = [ed(EditKind::Delete, 1, ""), ed(EditKind::Insert, 1, "mod c;")];
    assert_eq!(apply("mod b;\n", &swap), Ok("mod c;\n".to_string()));
    assert_eq!(apply("mod b;\nfn f() {}\n", &swap), Ok("mod c;\nfn f() {}\n".to_string()));
    assert_eq!(apply("mod b;", &swap), Ok("mod c;".to_string()));
    // a line that is both replaced and deleted is gone, and only that line
    let both = [ed(EditKind::Delete, 1, ""), ed(EditKind::Replace, 1, "x")];
    assert_eq!(apply("a\nb\n", &both), Ok("b\n".to_string()));
    let twice = [ed(EditKind::Delete, 1, ""), ed(EditKind::Delete, 1, "")];
    assert_eq!(apply("a\nb\n", &twice), Ok("b\n".to_string()));
    // the last replacement counts, and a later insertion comes first
    let many = [
        ed(EditKind::Replace, 1, "x"),
        ed(EditKind::Replace, 1, "y"),
        ed(EditKind::Insert, 1, "p"),
        ed(EditKind::Insert, 1, "q"),
    ];
    assert_eq!(apply("a\nb\n", &many), Ok("y\nq\np\nb\n".to_string()));
    assert_eq!(apply("a", &many), Ok("y\nq\np".to_string()));
}

#[test]
fn the_lines_that_are_not_there_are_named() {
    let edits = [
        ed(EditKind::Replace, 9, "x"),
        ed(EditKind::Delete, 0, ""),
        ed(EditKind::Insert, 3, "y"),
        ed(EditKind::Delete, 9, ""),
        ed(EditKind::Insert, 2, "z"),
    ];
    let refs: Vec<&Edit> = edits.iter().collect();
    assert_eq!(apply_edits("a\nb\n", &refs), Err(vec![0, 3, 9]));
}

#[test]
fn the_last_declared_module_can_be_renamed() {
    for (lib, want) in [
        ("mod b;\n", "mod c;\n"),
        ("mod a;\nmod b;\n", "mod a;\nmod c;\n"),
        ("mod a;\nmod b;\n\nfn f() {}\n", "mod a;\nmod c;\n\nfn f() {}\n"),
        ("mod b;", "mod c;"),
    ] {
        let ws = ws(&[("src/lib.rs", lib), ("src/b.rs", "pub struct B;\n")]);
        let plan = plan_move(&ws, &mv("src/b.rs", "src/c.rs"));
        let new = planned_texts(&plan, &ws.files).unwrap();
        assert_eq!(new, vec![("src/lib.rs".to_string(), want.to_string())]);
    }
}

#[test]
fn the_moved_file_is_not_counted_as_touched() {
    let edit = |path: &str, line: usize| Edit {
        path: path.to_string(),
        ..ed(EditKind::Replace, line, "x")
    };
    let plan = MovePlan {
        mv: Some(mv("src/a.rs", "src/c.rs")),
        edits: vec![edit("src/a.rs", 1), edit("src/lib.rs", 1), edit("src/lib.rs", 2)],
        warnings: vec![],
    };
    assert_eq!(plan.touched_files(), 1);
    assert_eq!(plan_line(&plan), "3 edit(s) across 1 file(s), 0 warning(s)");
    assert_eq!(touched_paths(&plan), vec!["src/a.rs", "src/lib.rs"]);
}

#[test]
fn files_are_looked_up_by_the_components_of_their_paths() {
    let ws = ws(&[
        ("src//lib.rs", "mod b;\n"),
        ("src/./b.rs", "first"),
        ("src/b.rs/", "use super::x;\n"),
        ("/src/b.rs", "elsewhere"),
    ]);
    assert_eq!(ws.files.len(), 3);
    assert_eq!(ws.files.get("src/b.rs").unwrap(), "use super::x;\n");
    assert_eq!(ws.files.get("//src/b.rs").unwrap(), "elsewhere");
    assert!(!ws.files.contains("./src/b.rs"));
    let plan = plan_move(&ws, &mv("src//b.rs", "src/c.rs"));
    assert_eq!(touched_paths(&plan), vec!["src/lib.rs"]);
    assert!(plan.warnings.iter().any(|w| w.contains("itself uses super::/self::")));
    let rooted = plan_move(&ws, &mv("/src/b.rs", "/src/c.rs"));
    assert!(rooted.warnings.iter().any(|w| w.contains("could not locate")));
    assert!(rooted.warnings.iter().any(|w| w.contains("(path: /src/lib.rs)")));
}
