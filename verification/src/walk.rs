//! What a walk over a repository yields, and what is picked from it: files by extension, and the
//! boundaries of nested repositories.
use vstd::prelude::*;

use crate::moves::{extension, extension_of};
use crate::paths::{components, components_of};
use crate::text::{gather, holds, lower, put, texts, to_lower};

verus! {

/// The names of the directories that are never walked: version control, builds and caches.
pub open spec fn skip_names() -> Seq<Seq<char>> {
    seq![
        "target"@,
        ".git"@,
        "node_modules"@,
        "__pycache__"@,
        ".venv"@,
        "_dist"@,
        "graphify-out"@,
    ]
}

/// The names of the directories that are never walked.
pub fn default_skip() -> (r: Vec<String>)
    ensures
        texts(r@) == skip_names(),
{
    let mut r: Vec<String> = Vec::new();
    put(&mut r, "target".to_owned());
    put(&mut r, ".git".to_owned());
    put(&mut r, "node_modules".to_owned());
    put(&mut r, "__pycache__".to_owned());
    put(&mut r, ".venv".to_owned());
    put(&mut r, "_dist".to_owned());
    put(&mut r, "graphify-out".to_owned());
    assert(texts(r@) =~= skip_names());
    r
}

/// Whether a walk leaves a name out.
pub fn is_skipped(name: &str, extra_skip: &Vec<String>) -> (r: bool)
    ensures
        r == (skip_names().contains(name@) || texts(extra_skip@).contains(name@)),
{
    holds(&default_skip(), name) || holds(extra_skip, name)
}

/// A file or a directory that a walk came by, with its path from the root of the walk.
#[derive(Debug, Clone)]
pub struct Entry {
    pub rel: String,
    pub is_dir: bool,
}

/// The path of the entry at a position, where it is a directory that is a repository itself.
pub open spec fn nested_repo(es: Seq<Entry>, has_git: Seq<bool>) -> spec_fn(int) -> Seq<Seq<char>> {
    |i: int|
        if es[i].is_dir && has_git[i] {
            seq![es[i].rel@]
        } else {
            seq![]
        }
}

/// The directories that are repositories themselves; `has_git` says of each entry whether there
/// is a `.git` in it.
pub fn subrepo_roots(entries: &Vec<Entry>, has_git: &Vec<bool>) -> (r: Vec<String>)
    requires
        entries@.len() == has_git@.len(),
    ensures
        texts(r@) == gather(entries@.len() as int, nested_repo(entries@, has_git@)),
{
    let mut r: Vec<String> = Vec::new();
    let mut i: usize = 0;
    while i < entries.len()
        invariant
            i <= entries.len() == has_git.len(),
            texts(r@) =~= gather(i as int, nested_repo(entries@, has_git@)),
        decreases entries.len() - i,
    {
        if entries[i].is_dir && has_git[i] {
            put(&mut r, entries[i].rel.clone());
        }
        i += 1;
    }
    r
}

/// Whether a path lies at or below another.
pub open spec fn lies_in(rel: Seq<char>, root: Seq<char>) -> bool {
    components_of(root).is_prefix_of(components_of(rel))
}

/// The deepest of the first `n` roots that a path lies in; the last of several.
pub open spec fn deepest(rel: Seq<char>, roots: Seq<Seq<char>>, n: int) -> Option<Seq<char>>
    decreases n,
{
    if n <= 0 {
        None
    } else {
        let prior = deepest(rel, roots, n - 1);
        if lies_in(rel, roots[n - 1]) && (prior is None || components_of(roots[n - 1]).len()
            >= components_of(prior->0).len()) {
            Some(roots[n - 1])
        } else {
            prior
        }
    }
}

/// The nested repository that a path belongs to; empty for the outer one.
pub open spec fn repo_of(rel: Seq<char>, roots: Seq<Seq<char>>) -> Seq<char> {
    match deepest(rel, roots, roots.len() as int) {
        Some(r) => r,
        None => Seq::empty(),
    }
}

proof fn deepest_facts(rel: Seq<char>, roots: Seq<Seq<char>>, n: int, k: int)
    requires
        0 <= k < n <= roots.len(),
        lies_in(rel, roots[k]),
    ensures
        deepest(rel, roots, n) is Some,
        lies_in(rel, deepest(rel, roots, n)->0),
        roots.contains(deepest(rel, roots, n)->0),
        components_of(roots[k]).len() <= components_of(deepest(rel, roots, n)->0).len(),
    decreases n,
{
    let prior = deepest(rel, roots, n - 1);
    if k < n - 1 {
        deepest_facts(rel, roots, n - 1, k);
    }
    let r = deepest(rel, roots, n)->0;
    if r == roots[n - 1] {
        assert(roots.contains(roots[n - 1]));
    }
    if prior is Some && k == n - 1 {
        deepest_is_root(rel, roots, n - 1);
    }
}

proof fn deepest_is_root(rel: Seq<char>, roots: Seq<Seq<char>>, n: int)
    requires
        0 <= n <= roots.len(),
        deepest(rel, roots, n) is Some,
    ensures
        lies_in(rel, deepest(rel, roots, n)->0),
        roots.contains(deepest(rel, roots, n)->0),
    decreases n,
{
    if n > 0 {
        if deepest(rel, roots, n - 1) is Some {
            deepest_is_root(rel, roots, n - 1);
        }
        assert(roots.contains(roots[n - 1]));
    }
}

/// A path belongs to the innermost of the nested repositories that it lies in.
pub proof fn innermost_wins(rel: Seq<char>, roots: Seq<Seq<char>>, k: int)
    requires
        0 <= k < roots.len(),
        lies_in(rel, roots[k]),
    ensures
        roots.contains(repo_of(rel, roots)),
        lies_in(rel, repo_of(rel, roots)),
        components_of(roots[k]).len() <= components_of(repo_of(rel, roots)).len(),
{
    deepest_facts(rel, roots, roots.len() as int, k);
}

fn does_lie_in(rel: &Vec<String>, root: &Vec<String>) -> (r: bool)
    ensures
        r == texts(root@).is_prefix_of(texts(rel@)),
{
    let ghost a = texts(root@);
    let ghost b = texts(rel@);
    assert(a.len() == root@.len() && b.len() == rel@.len());
    if root.len() > rel.len() {
        return false;
    }
    let mut i: usize = 0;
    while i < root.len()
        invariant
            i <= root.len() <= rel.len(),
            a == texts(root@),
            b == texts(rel@),
            forall|k: int| 0 <= k < i ==> a[k] == b[k],
        decreases root.len() - i,
    {
        assert(a[i as int] == root@[i as int]@ && b[i as int] == rel@[i as int]@);
        if !crate::text::same(root[i].as_str(), rel[i].as_str()) {
            assert(b.subrange(0, a.len() as int)[i as int] != a[i as int]);
            return false;
        }
        i += 1;
    }
    assert(a =~= b.subrange(0, a.len() as int));
    true
}

/// Whether a path lies at or below another.
pub fn is_in(rel: &str, root: &str) -> (r: bool)
    ensures
        r == lies_in(rel@, root@),
{
    does_lie_in(&components(rel), &components(root))
}

/// The nested repository that a path belongs to, the deepest one; empty for the outer one.
pub fn subrepo_of(rel: &str, roots: &Vec<String>) -> (r: String)
    ensures
        r@ == repo_of(rel@, texts(roots@)),
{
    let here = components(rel);
    let ghost all = texts(roots@);
    let mut best: Option<usize> = None;
    let mut depth: usize = 0;
    let mut i: usize = 0;
    while i < roots.len()
        invariant
            i <= roots.len(),
            all == texts(roots@),
            texts(here@) == components_of(rel@),
            match best {
                Some(k) => k < roots.len() && deepest(rel@, all, i as int) == Some(
                    roots@[k as int]@,
                ) && depth == components_of(roots@[k as int]@).len(),
                None => deepest(rel@, all, i as int) is None,
            },
        decreases roots.len() - i,
    {
        assert(all[i as int] == roots@[i as int]@);
        let c = components(roots[i].as_str());
        assert(texts(c@).len() == c@.len());
        if does_lie_in(&here, &c) && (best.is_none() || c.len() >= depth) {
            best = Some(i);
            depth = c.len();
        }
        i += 1;
    }
    match best {
        Some(k) => roots[k].clone(),
        None => {
            let none = String::new();
            assert(none@ =~= Seq::<char>::empty());
            none
        },
    }
}

/// Whether a path has one of several extensions, or there are none to choose from.
pub open spec fn has_extension(rel: Seq<char>, exts: Seq<Seq<char>>) -> bool {
    exts.len() == 0 || match extension_of(rel) {
        Some(e) => exts.contains(e.map_values(|c: char| lower(c))),
        None => false,
    }
}

/// The path of the entry at a position, where it is a file with one of several extensions.
pub open spec fn picked_file(es: Seq<Entry>, exts: Seq<Seq<char>>) -> spec_fn(int) -> Seq<Seq<char>> {
    |i: int|
        if !es[i].is_dir && has_extension(es[i].rel@, exts) {
            seq![es[i].rel@]
        } else {
            seq![]
        }
}

/// The files with one of the extensions, which are given in small letters and without a dot; all
/// files where none are given.
pub fn files_with_ext(entries: &Vec<Entry>, exts: &Vec<String>) -> (r: Vec<String>)
    ensures
        texts(r@) == gather(entries@.len() as int, picked_file(entries@, texts(exts@))),
{
    let mut r: Vec<String> = Vec::new();
    let mut i: usize = 0;
    assert(texts(exts@).len() == exts@.len());
    while i < entries.len()
        invariant
            i <= entries.len(),
            texts(exts@).len() == exts@.len(),
            texts(r@) =~= gather(i as int, picked_file(entries@, texts(exts@))),
        decreases entries.len() - i,
    {
        let e = &entries[i];
        let fits = exts.len() == 0 || match extension(e.rel.as_str()) {
            Some(x) => holds(exts, to_lower(x.as_str()).as_str()),
            None => false,
        };
        if !e.is_dir && fits {
            put(&mut r, e.rel.clone());
        }
        i += 1;
    }
    r
}

} // verus!
