//! The functions on text do what those of the standard library do.
use bonsai::order::{sort_dedup, sort_texts, Table};
use bonsai::paths::{components, same_path, write_plain};
use bonsai::text::{
    contains, count, decimal, decimal_i64, ends_with, is_ascii_alphanumeric, is_white, join, leading,
    lines, lower_char, position, replace, rsplit_once, split, split_lines, split_once,
    split_whitespace, starts_with, strip_prefix, strip_suffix, to_lower, to_upper, trim, trim_end,
    trim_start, upper_char, Class,
};

const SAMPLES: &[&str] = &[
    "",
    " ",
    "a",
    "a/b/c",
    "/a//b/",
    "  two words \t",
    "line\nline\r\nlast",
    "\n",
    "\r\n\r",
    "a\n\nb\n",
    "é ✗ 🦀 ß",
    "\u{a0}nbsp\u{2003}",
    "mod x; // mod y;",
    "aaaa",
    "UPPER lower ÄÖ",
];

#[test]
fn text_is_searched_as_by_std() {
    for s in SAMPLES {
        for p in ["a", "aa", "/", "\n", "mod ", "✗", "zz"] {
            assert_eq!(starts_with(s, p), s.starts_with(p));
            assert_eq!(ends_with(s, p), s.ends_with(p));
            assert_eq!(contains(s, p), s.contains(p));
            assert_eq!(
                position(s, p),
                s.find(p).map(|i| s[..i].chars().count()),
                "{s:?} {p:?}"
            );
            assert_eq!(count(s, p), s.matches(p).count(), "{s:?} {p:?}");
            let own = |o: Option<(&str, &str)>| o.map(|(a, b)| (a.to_string(), b.to_string()));
            assert_eq!(split_once(s, p), own(s.split_once(p)));
            assert_eq!(rsplit_once(s, p), own(s.rsplit_once(p)));
            assert_eq!(strip_prefix(s, p), s.strip_prefix(p).map(str::to_string));
            assert_eq!(strip_suffix(s, p), s.strip_suffix(p).map(str::to_string));
        }
    }
}

#[test]
fn text_is_cut_as_by_std() {
    for s in SAMPLES {
        assert_eq!(trim(s), s.trim());
        assert_eq!(trim_start(s), s.trim_start());
        assert_eq!(trim_end(s), s.trim_end());
        assert_eq!(split(s, '/'), s.split('/').collect::<Vec<_>>());
        assert_eq!(
            split_whitespace(s),
            s.split_whitespace().collect::<Vec<_>>()
        );
        assert_eq!(lines(s), s.lines().collect::<Vec<_>>(), "{s:?}");
        let whole: String = split_lines(s)
            .iter()
            .map(|l| format!("{}{}", l.text, l.term))
            .collect();
        assert_eq!(&whole, s);
        let parts = split(s, '/');
        assert_eq!(join(&parts, "/"), *s);
        assert_eq!(replace(s, 'a', "bb"), s.replace('a', "bb"));
        assert_eq!(to_lower(s), s.to_ascii_lowercase());
        assert_eq!(to_upper(s), s.to_ascii_uppercase());
        assert_eq!(
            leading(s, Class::Ident),
            s.chars()
                .take_while(|c| c.is_alphanumeric() || *c == '_')
                .collect::<String>()
        );
    }
}

#[test]
fn characters_are_classed_as_by_std() {
    for c in (0..=0x10ffffu32).filter_map(char::from_u32) {
        assert_eq!(is_white(c), c.is_whitespace(), "{c:?}");
        assert_eq!(is_ascii_alphanumeric(c), c.is_ascii_alphanumeric());
        assert_eq!(lower_char(c), c.to_ascii_lowercase());
        assert_eq!(upper_char(c), c.to_ascii_uppercase());
    }
}

#[test]
fn numbers_are_written_as_by_std() {
    for n in [0u64, 7, 10, 99, 100, 12345, u64::MAX] {
        assert_eq!(decimal(n), n.to_string());
    }
    for n in [0i64, -1, 42, i64::MIN, i64::MAX] {
        assert_eq!(decimal_i64(n), n.to_string());
    }
}

#[test]
fn strings_are_ordered_as_by_std() {
    let v: Vec<String> = ["b", "a", "é", "ab", "", "b", "Z", "🦀", "a/b", "a.b"]
        .iter()
        .map(|s| s.to_string())
        .collect();
    let mut want = v.clone();
    want.sort();
    assert_eq!(sort_texts(v.clone()), want);
    want.dedup();
    assert_eq!(sort_dedup(v), want);
}

#[test]
fn paths_are_ordered_part_by_part() {
    let mut t: Table<u8, true> = Table::new();
    let names = ["a.b/x", "a/z", "a-b", "a", "b"];
    for (i, n) in names.iter().enumerate() {
        t.insert(n.to_string(), i as u8);
    }
    let mut want: Vec<std::path::PathBuf> = names.iter().map(std::path::PathBuf::from).collect();
    want.sort();
    let got: Vec<std::path::PathBuf> = (0..t.len())
        .map(|i| std::path::PathBuf::from(t.name(i)))
        .collect();
    assert_eq!(got, want);
    t.insert("a".to_string(), 9);
    assert_eq!(t.len(), 5);
    assert_eq!(t.get("a"), Some(&9));
    assert!(!t.contains("c"));
}

#[test]
fn paths_are_taken_apart_as_by_std() {
    let samples = [
        "", "/", "//", "a", "a/", "a//b", "a/./b", "./a", ".", "..", "../a", "a/..", "/a", "//a/b",
        "/./a", "a/b/.", "./.", "-x", "+/y", ".hidden/x", "..x", "a.b",
    ];
    for s in samples {
        let path = std::path::Path::new(s);
        let want: Vec<String> = path
            .components()
            .map(|c| c.as_os_str().to_str().unwrap().to_string())
            .collect();
        assert_eq!(components(s), want, "{s:?}");
        assert_eq!(std::path::PathBuf::from(write_plain(s)), path, "{s:?}");
        for t in samples {
            assert_eq!(same_path(s, t), path == std::path::Path::new(t), "{s:?} {t:?}");
        }
    }
    let mut table: Table<(), true> = Table::new();
    for s in samples {
        table.insert(s.to_string(), ());
    }
    let want: std::collections::BTreeSet<std::path::PathBuf> =
        samples.iter().map(std::path::PathBuf::from).collect();
    let got: Vec<std::path::PathBuf> = (0..table.len())
        .map(|i| std::path::PathBuf::from(table.name(i)))
        .collect();
    assert_eq!(got, want.into_iter().collect::<Vec<_>>());
}
