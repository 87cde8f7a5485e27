//! What is read off source texts: copied functions, contracts, forgotten code.
use bonsai::clones::function_clones;
use bonsai::config::Contract;
use bonsai::contracts;
use bonsai::forgotten;
use bonsai::moves::Workspace;

fn ws(pairs: &[(&str, &str)]) -> Workspace {
    let pairs = pairs
        .iter()
        .map(|(path, text)| (path.to_string(), text.to_string()))
        .collect();
    Workspace::from_pairs(".".to_string(), pairs)
}

#[test]
fn detects_copy_pasted_function_across_files() {
    let body = "let mut total = 0;\nfor x in items {\n    total += x * 2;\n    total -= 1;\n}\nreturn total;";
    let ws = ws(&[
        ("a.rs", format!("pub fn compute(items: &[i32]) -> i32 {{\n{body}\n}}\n").as_str()),
        // same body, different function name + file → a clone
        ("b.rs", format!("fn tally(items: &[i32]) -> i32 {{\n{body}\n}}\n").as_str()),
        // a distinct function → not in the group
        ("c.rs", "fn other() -> i32 {\n    let a = 1;\n    let b = 2;\n    let c = 3;\n    let d = 4;\n    a + b + c + d\n}\n"),
    ]);
    let groups = function_clones(&ws, 5);
    assert_eq!(groups.len(), 1, "one clone group: {groups:?}");
    assert_eq!(groups[0].sites.len(), 2);
    let names: Vec<&str> = groups[0].sites.iter().map(|(_, n, _)| n.as_str()).collect();
    assert!(names.contains(&"compute") && names.contains(&"tally"));
    assert_eq!(groups[0].lines, 6);
    assert_eq!(groups[0].sites[0].0, "a.rs");
    assert_eq!(groups[0].sites[0].2, 1);
}

#[test]
fn trivial_and_test_functions_are_not_clones() {
    let ws = ws(&[
        // two trivial getters (below min_lines) — not flagged
        ("a.rs", "pub fn x(&self) -> u8 { self.x }\n"),
        ("b.rs", "pub fn y(&self) -> u8 { self.x }\n"),
        // identical bodies but inside #[cfg(test)] — excluded
        ("c.rs", "#[cfg(test)]\nmod t {\n fn h() {\n  let a=1;\n  let b=2;\n  let c=3;\n  let d=4;\n  let e=5;\n }\n}\n"),
        ("d.rs", "#[cfg(test)]\nmod t {\n fn g() {\n  let a=1;\n  let b=2;\n  let c=3;\n  let d=4;\n  let e=5;\n }\n}\n"),
    ]);
    assert!(
        function_clones(&ws, 5).is_empty(),
        "trivial + test fns must not clone"
    );
}

#[test]
fn braces_in_strings_dont_break_matching() {
    // the `}` in the string must not close the function early
    let ws = ws(&[
        ("a.rs", "fn f() {\n    let s = \"a } b { c\";\n    let x = 1;\n    let y = 2;\n    let z = 3;\n    println!(\"{}\", s);\n}\n"),
        ("b.rs", "fn g() {\n    let s = \"a } b { c\";\n    let x = 1;\n    let y = 2;\n    let z = 3;\n    println!(\"{}\", s);\n}\n"),
    ]);
    let groups = function_clones(&ws, 5);
    assert_eq!(groups.len(), 1, "string-brace-safe clone: {groups:?}");
}

#[test]
fn comments_and_indentation_do_not_hide_a_clone() {
    let ws = ws(&[
        ("a.rs", "fn f() {\n    let a = 1; // one\n    let b = 2;\n    let c = 3;\n}\n"),
        ("b.rs", "fn g() {\n  let a   = 1;\n\n  let b = 2; // two\n  let c = 3;\n}\n"),
    ]);
    let groups = function_clones(&ws, 3);
    assert_eq!(groups.len(), 1);
    assert_eq!(groups[0].lines, 3);
    assert!(function_clones(&ws, 4).is_empty(), "too short to count");
}

#[test]
fn python_functions_are_compared_and_tests_are_not() {
    let body = "    a = 1\n    b = 2\n    c = 3\n    d = 4\n    return a + b + c + d\n";
    let ws = ws(&[
        ("a.py", format!("def one():\n{body}").as_str()),
        ("b.py", format!("async def two():\n{body}").as_str()),
        ("c.py", format!("def test_three():\n{body}").as_str()),
    ]);
    let groups = function_clones(&ws, 5);
    assert_eq!(groups.len(), 1, "{groups:?}");
    let names: Vec<&str> = groups[0].sites.iter().map(|(_, n, _)| n.as_str()).collect();
    assert_eq!(names, vec!["one", "two"]);
}

fn contract() -> Contract {
    Contract {
        path: "codec/src".into(),
        level: "codec".into(),
        when_defines: Some("WireMagic".into()),
        must_impl: Some("Codec".into()),
        forbid: vec!["std::mem::transmute".into()],
        sealed: Some("Codec".into()),
    }
}

#[test]
fn anchor_flags_trigger_without_impl() {
    let ws = ws(&[
        ("codec/src/trait.rs", "pub trait Codec { fn go(&self); }\n"),
        (
            "codec/src/new_fmt.rs",
            "const M: &[u8] = b\"WireMagic\";\npub struct NewFmt;\n",
        ),
    ]);
    let f = contracts::evaluate(&ws, &vec![contract()]);
    assert!(
        f.iter().any(|x| x.rule == "contract-anchor"),
        "a wire format without impl Codec must be flagged: {f:?}"
    );
}

#[test]
fn anchor_satisfied_when_impl_present() {
    let ws = ws(&[
        ("codec/src/trait.rs", "pub trait Codec {}\n"),
        (
            "codec/src/ok_fmt.rs",
            "// WireMagic here\npub struct OkFmt;\nimpl Codec for OkFmt {}\n",
        ),
    ]);
    let f = contracts::evaluate(&ws, &vec![contract()]);
    assert!(
        !f.iter().any(|x| x.rule == "contract-anchor"),
        "impl present → OK: {f:?}"
    );
}

#[test]
fn anchor_satisfied_by_an_impl_in_another_file_of_the_level() {
    let with = ws(&[
        ("codec/src/trait.rs", "pub trait Codec {}\n"),
        ("codec/src/fmt.rs", "// WireMagic here\npub struct Far;\n"),
        ("codec/src/impls.rs", "impl Codec for Far {}\n"),
    ]);
    let f = contracts::evaluate(&with, &vec![contract()]);
    assert!(!f.iter().any(|x| x.rule == "contract-anchor"), "{f:?}");
    let without = ws(&[
        ("codec/src/trait.rs", "pub trait Codec {}\n"),
        ("codec/src/fmt.rs", "// WireMagic here\npub struct Far;\n"),
        ("elsewhere/impls.rs", "impl Codec for Far {}\n"),
    ]);
    let f = contracts::evaluate(&without, &vec![contract()]);
    assert!(f.iter().any(|x| x.rule == "contract-anchor"), "{f:?}");
}

#[test]
fn sealed_seam_removal_is_flagged() {
    // the Codec trait no longer exists anywhere → sealed violation
    let ws = ws(&[("codec/src/x.rs", "pub struct Thing;\n")]);
    let f = contracts::evaluate(&ws, &vec![contract()]);
    assert!(
        f.iter().any(|x| x.rule == "contract-seal"),
        "removing the sealed Codec seam must be flagged: {f:?}"
    );
}

#[test]
fn forbidden_reach_is_flagged() {
    let ws = ws(&[
        ("codec/src/trait.rs", "pub trait Codec {}\n"),
        ("codec/src/hack.rs", "// WireMagic\nimpl Codec for H {}\nfn f() { std::mem::transmute::<u8,i8>(0); }\n"),
    ]);
    let f = contracts::evaluate(&ws, &vec![contract()]);
    assert!(
        f.iter()
            .any(|x| x.rule == "contract-forbid" && x.location.line == Some(3)),
        "forbidden transmute must be flagged at its line: {f:?}"
    );
}

#[test]
fn only_governs_declared_path() {
    // a WireMagic outside codec/src is not this contract's concern
    let ws = ws(&[
        ("codec/src/trait.rs", "pub trait Codec {}\n"),
        ("elsewhere/z.rs", "const M: &[u8] = b\"WireMagic\";\n"),
    ]);
    let f = contracts::evaluate(&ws, &vec![contract()]);
    assert!(
        !f.iter().any(|x| x.rule == "contract-anchor"),
        "out-of-path file ignored: {f:?}"
    );
}

#[test]
fn flags_unwired_module_only() {
    let ws = ws(&[
        ("src/lib.rs", "pub mod wired;\n"),
        ("src/wired.rs", "pub fn a() {}\n"),
        ("src/orphan.rs", "pub fn b() {}\n"), // no `mod orphan;` anywhere → forgotten
        ("src/bin/tool.rs", "fn main() {}\n"), // cargo-discovered → not flagged
    ]);
    let f = forgotten::evaluate(&ws);
    let unwired: Vec<&str> = f
        .iter()
        .filter(|x| x.rule == "forgotten-unwired")
        .map(|x| x.location.file.as_str())
        .collect();
    assert_eq!(
        unwired,
        vec!["src/orphan.rs"],
        "only the truly unwired file: {f:?}"
    );
}

#[test]
fn flags_undocumented_pub_api() {
    let ws = ws(&[(
        "src/lib.rs",
        "/// documented.\npub fn good() {}\n\npub fn bad() {}\n\n#[inline]\npub fn attr_bad() {}\n\n/// doc\n#[inline]\npub fn attr_good() {}\n",
    )]);
    let f = forgotten::evaluate(&ws);
    let undoc: Vec<&str> = f
        .iter()
        .filter(|x| x.rule == "forgotten-undoc")
        .map(|x| x.message.as_str())
        .collect();
    assert_eq!(undoc.len(), 2, "bad + attr_bad only: {f:?}");
    assert!(undoc.iter().all(|m| m.contains("pub fn")));
}

#[test]
fn impl_methods_and_test_items_are_not_flagged() {
    let ws = ws(&[(
        "src/lib.rs",
        "pub struct S;\nimpl S {\n    pub fn method(&self) {}\n}\n#[cfg(test)]\nmod t {\n    pub fn helper() {}\n}\n",
    )]);
    // S is undocumented (flagged); the indented impl method + the test-region fn are not.
    let f = forgotten::evaluate(&ws);
    let undoc: Vec<&str> = f
        .iter()
        .filter(|x| x.rule == "forgotten-undoc")
        .map(|x| x.message.as_str())
        .collect();
    assert_eq!(undoc.len(), 1, "only `pub struct S`: {undoc:?}");
    assert!(undoc[0].contains("pub struct"));
}

#[test]
fn a_signature_over_several_lines_is_no_part_of_the_body() {
    let body = "    a = 1\n    b = 2\n    c = 3\n    d = 4\n    return a + b\n";
    let ws = ws(&[
        (
            "a.py",
            format!("def one(\n    x=\")\",  # (\n    y=[1],\n) -> int:\n{body}").as_str(),
        ),
        ("b.py", format!("class C:\n    pass\n\ndef two(z): # (\n{body}").as_str()),
    ]);
    let groups = function_clones(&ws, 5);
    assert_eq!(groups.len(), 1);
    assert_eq!(groups[0].lines, 5);
    let sites: Vec<(&str, u32)> = groups[0]
        .sites
        .iter()
        .map(|(_, name, line)| (name.as_str(), *line))
        .collect();
    assert_eq!(sites, vec![("one", 1), ("two", 4)]);
}

#[test]
fn an_anchor_is_implemented_in_any_generic_form() {
    let judge = |line: &str| {
        let text = format!("// WireMagic\nstruct T;\n{line} {{}}\n");
        let ws = ws(&[
            ("codec/src/trait.rs", "pub(crate) unsafe trait Codec {}\n"),
            ("codec/src/x.rs", text.as_str()),
        ]);
        contracts::evaluate(&ws, &vec![contract()]).is_empty()
    };
    for line in [
        "impl Codec for T",
        "impl<A> Codec for T",
        "impl<A: Into<Vec<u8>>> Codec for T",
        "impl<F: Fn(u8) -> u8> Codec for F",
        "impl Codec<Vec<u8>> for T where T: Sized",
        "    impl<A> Codec<A> for T",
        "impl Codec /* of the wire */ for T",
        "impl Codec<{ N > 1 }> for T",
    ] {
        assert!(judge(line), "{line}");
    }
    for line in [
        "impl CodecExt for T",
        "impl Codec<Transform>",
        "impl Codec /* before */",
        "impl Other for Codec",
        "impl Codec",
    ] {
        assert!(!judge(line), "{line}");
    }
}

#[test]
fn a_contract_governs_what_lies_under_its_path() {
    let text = "const M: &[u8] = b\"WireMagic\";\n";
    let judge = |path: &str| {
        let ws = ws(&[("codec/src/trait.rs", "pub trait Codec {}\n"), (path, text)]);
        contracts::evaluate(&ws, &vec![contract()]).len()
    };
    assert_eq!(judge("codec/src/x.rs"), 1);
    assert_eq!(judge("codec/src/deep/x.rs"), 1);
    assert_eq!(judge("codec/src2/x.rs"), 0);
    assert_eq!(judge("codec/x.rs"), 0);
}

#[test]
fn only_rust_files_can_be_unwired() {
    let ws = ws(&[
        ("src/lib.rs", "/// A.\npub mod a;\n"),
        ("src/a.rs", ""),
        ("src/b.rs", ""),
        ("src/tool.py", "print(1)\n"),
    ]);
    let found: Vec<String> = forgotten::evaluate(&ws)
        .into_iter()
        .map(|f| f.location.file)
        .collect();
    assert_eq!(found, vec!["src/b.rs"]);
}
