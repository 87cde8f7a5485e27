//! The authored structure of a repository, and the tree that it and the files on disk make up.
use vstd::prelude::*;

use crate::github::GithubPolicy;
use crate::model::{Kind, Node, Plane};
use crate::moves::{extension, extension_of};
use crate::order::{
    arrange, arranged, in_order, link, links, name_key, name_rank, named, row_of, row_unique,
    value_of, Keyed, Names, Ranked, Table,
};
use crate::paths::{components, components_of};
use crate::text::{copy_all, holds, join, joined, put, rcut, rsplit_once, same, text_opt, texts};
use crate::tree::Tree;
use crate::walk::{default_skip, skip_names, Entry};

verus! {

/// A level of the architecture: what files under a path must and must not do.
#[derive(Debug, Clone)]
pub struct Contract {
    /// The path that the contract governs.
    pub path: String,
    /// The name of the level; the path where it is empty.
    pub level: String,
    /// The text that makes a file of the level one of its kind; every file where there is none.
    pub when_defines: Option<String>,
    /// The trait that a file of the kind must implement.
    pub must_impl: Option<String>,
    /// Texts that must not occur.
    pub forbid: Vec<String>,
    /// An abstraction that must stay defined.
    pub sealed: Option<String>,
}

/// How new code must enter: the rules that a repository declares. A limit of 0 is none.
#[derive(Debug, Clone)]
pub struct Rules {
    /// The layers of the architecture, the most stable first. A file may depend on its own layer
    /// and on those before it.
    pub layers: Vec<String>,
    /// How many files a directory may hold.
    pub max_files_per_dir: usize,
    /// Whether a misplaced file is an error.
    pub enforce_placement: bool,
    /// How many layers there may be.
    pub max_layers: usize,
    /// How deep directories may nest.
    pub max_depth: usize,
    /// Whether files that depend on each other in turn are an error.
    pub forbid_cycles: bool,
    /// Findings that are let through: a rule, and perhaps a pattern of files behind a colon.
    pub allow: Vec<String>,
}

impl Default for Rules {
    fn default() -> (r: Rules)
        ensures
            r.layers@.len() == 0,
            r.max_files_per_dir == 0,
            !r.enforce_placement,
            r.max_layers == 0,
            r.max_depth == 0,
            !r.forbid_cycles,
            r.allow@.len() == 0,
    {
        Rules {
            layers: Vec::new(),
            max_files_per_dir: 0,
            enforce_placement: false,
            max_layers: 0,
            max_depth: 0,
            forbid_cycles: false,
            allow: Vec::new(),
        }
    }
}

// ── the authored structure ─────────────────────────────────────────────────────────────

/// The configuration of a repository.
#[derive(Debug)]
pub struct Config {
    pub bonsai: Meta,
    pub docs: Option<DocsCfg>,
    /// The authored nodes.
    pub nodes: Vec<NodeSpec>,
    /// How new code must enter.
    pub rules: Option<Rules>,
    /// The levels of the architecture.
    pub contracts: Vec<Contract>,
    /// What the repository is held to on GitHub.
    pub github: Option<GithubPolicy>,
}

/// How the documentation is composed.
#[derive(Debug, Clone)]
pub struct DocsCfg {
    /// The command that composes and checks it.
    pub compose: String,
}

impl Default for DocsCfg {
    fn default() -> (r: DocsCfg)
        ensures
            r.compose@ == "python3 bonsai/docs/compose.py"@,
    {
        DocsCfg { compose: "python3 bonsai/docs/compose.py".to_owned() }
    }
}

/// General settings.
#[derive(Debug, Clone)]
pub struct Meta {
    /// The id of the root.
    pub root: String,
    pub version: u32,
    /// The names of directories that are not walked.
    pub skip: Vec<String>,
    /// How deep directories are taken in; no limit where there is none.
    pub max_init_depth: Option<usize>,
}

impl Default for Meta {
    fn default() -> (r: Meta)
        ensures
            r.root@ == "."@,
            r.version == 1,
            texts(r.skip@) == skip_names(),
            r.max_init_depth is None,
    {
        Meta { root: ".".to_owned(), version: 1, skip: default_skip(), max_init_depth: None }
    }
}

impl Default for Config {
    fn default() -> (r: Config)
        ensures
            r.bonsai.root@ == "."@,
            r.bonsai.version == 1,
            texts(r.bonsai.skip@) == skip_names(),
            r.bonsai.max_init_depth is None,
            r.docs is None,
            r.nodes@.len() == 0,
            r.rules is None,
            r.contracts@.len() == 0,
            r.github is None,
    {
        Config {
            bonsai: Meta::default(),
            docs: None,
            nodes: Vec::new(),
            rules: None,
            contracts: Vec::new(),
            github: None,
        }
    }
}

/// An authored node. Everything but the id may be left out.
#[derive(Debug)]
pub struct NodeSpec {
    pub id: String,
    /// `atom` or `composite`; told from the children where it is left out.
    pub kind: Option<String>,
    /// `code` or `docs`; told from the path where it is left out.
    pub plane: Option<String>,
    /// The node that contains this one; the root where it is left out.
    pub parent: Option<String>,
    pub anchors: Vec<String>,
    pub depends_on: Vec<String>,
    pub facets: Table<String, false>,
}

/// The kind that an authored node names. One that names none passes for a composite until its
/// children are known.
pub open spec fn spec_kind(s: NodeSpec) -> Kind {
    match s.kind {
        Some(k) => if k@ == "atom"@ {
            Kind::Atom
        } else {
            Kind::Composite
        },
        None => Kind::Composite,
    }
}

/// The plane that an authored node names, that of its path where it names none.
pub open spec fn spec_plane(s: NodeSpec) -> Plane {
    match s.plane {
        Some(p) => if p@ == "docs"@ {
            Plane::Docs
        } else {
            Plane::Code
        },
        None => path_plane(s.id@),
    }
}

impl NodeSpec {
    fn kind_of(&self) -> (r: Kind)
        ensures
            r == spec_kind(*self),
    {
        match &self.kind {
            Some(k) => if same(k.as_str(), "atom") {
                Kind::Atom
            } else {
                Kind::Composite
            },
            None => Kind::Composite,
        }
    }

    fn plane_of(&self) -> (r: Plane)
        ensures
            r == spec_plane(*self),
    {
        match &self.plane {
            Some(p) => if same(p.as_str(), "docs") {
                Plane::Docs
            } else {
                Plane::Code
            },
            None => find_plane(self.id.as_str()),
        }
    }
}

// ── what a path says ───────────────────────────────────────────────────────────────────

/// The id of the node of a path: its components with slashes between them.
pub open spec fn path_id(rel: Seq<char>) -> Seq<char> {
    joined(components_of(rel), "/"@)
}

/// The id of the node of the directory that a path is in, where it is in one.
pub open spec fn parent_id(rel: Seq<char>) -> Option<Seq<char>> {
    let c = components_of(rel);
    if c.len() > 1 {
        Some(joined(c.drop_last(), "/"@))
    } else {
        None
    }
}

/// The plane of a path: documentation under a directory of that name.
pub open spec fn path_plane(rel: Seq<char>) -> Plane {
    if components_of(rel).contains("docs"@) {
        Plane::Docs
    } else {
        Plane::Code
    }
}

/// The name of a plane.
pub open spec fn plane_name(p: Plane) -> Seq<char> {
    match p {
        Plane::Docs => "docs"@,
        Plane::Code => "code"@,
    }
}

/// The language of a file, by its extension.
pub open spec fn language_of(rel: Seq<char>) -> Option<Seq<char>> {
    match extension_of(rel) {
        Some(e) => if e == "rs"@ {
            Some("rust"@)
        } else if e == "py"@ {
            Some("python"@)
        } else if e == "md"@ {
            Some("markdown"@)
        } else if e == "toml"@ {
            Some("toml"@)
        } else if e == "c"@ || e == "h"@ {
            Some("c"@)
        } else if e == "cpp"@ || e == "hpp"@ || e == "cc"@ {
            Some("cpp"@)
        } else {
            None
        },
        None => None,
    }
}

/// The languages that are known, in order.
pub open spec fn languages() -> Seq<Seq<char>> {
    seq!["c"@, "cpp"@, "markdown"@, "python"@, "rust"@, "toml"@]
}

/// How many of the first `n` files are of a language.
pub open spec fn language_count(files: Seq<Seq<char>>, lang: Seq<char>, n: int) -> nat
    decreases n,
{
    if n <= 0 {
        0
    } else {
        language_count(files, lang, n - 1) + (if language_of(files[n - 1]) == Some(lang) {
            1nat
        } else {
            0nat
        })
    }
}

/// Of the first `n` languages, the one that most files are of; the last of several.
pub open spec fn leading_language(files: Seq<Seq<char>>, n: int) -> Option<Seq<char>>
    decreases n,
{
    if n <= 0 {
        None
    } else {
        let prior = leading_language(files, n - 1);
        let lang = languages()[n - 1];
        let count = language_count(files, lang, files.len() as int);
        if count > 0 && (prior is None || count >= language_count(
            files,
            prior->0,
            files.len() as int,
        )) {
            Some(lang)
        } else {
            prior
        }
    }
}

/// The language that most of the files of a directory are of.
pub open spec fn dominant(files: Seq<Seq<char>>) -> Option<Seq<char>> {
    leading_language(files, languages().len() as int)
}

fn write_id(rel: &str) -> (r: String)
    ensures
        r@ == path_id(rel@),
{
    join(&components(rel), "/")
}

fn write_parent(rel: &str) -> (r: Option<String>)
    ensures
        text_opt(r) == parent_id(rel@),
{
    let mut c = components(rel);
    let ghost all = texts(c@);
    assert(all.len() == c@.len());
    if c.len() > 1 {
        let _ = c.pop();
        assert(texts(c@) =~= all.drop_last());
        Some(join(&c, "/"))
    } else {
        None
    }
}

fn find_plane(rel: &str) -> (r: Plane)
    ensures
        r == path_plane(rel@),
{
    if holds(&components(rel), "docs") {
        Plane::Docs
    } else {
        Plane::Code
    }
}

fn find_language(rel: &str) -> (r: Option<&'static str>)
    ensures
        match r {
            Some(l) => language_of(rel@) == Some(l@),
            None => language_of(rel@) is None,
        },
{
    match extension(rel) {
        Some(x) => {
            let e = x.as_str();
            if same(e, "rs") {
                Some("rust")
            } else if same(e, "py") {
                Some("python")
            } else if same(e, "md") {
                Some("markdown")
            } else if same(e, "toml") {
                Some("toml")
            } else if same(e, "c") || same(e, "h") {
                Some("c")
            } else if same(e, "cpp") || same(e, "hpp") || same(e, "cc") {
                Some("cpp")
            } else {
                None
            }
        },
        None => None,
    }
}

fn count_language(files: &Vec<String>, lang: &str) -> (r: usize)
    ensures
        r == language_count(texts(files@), lang@, files@.len() as int),
{
    let ghost all = texts(files@);
    let mut n: usize = 0;
    let mut i: usize = 0;
    while i < files.len()
        invariant
            i <= files.len(),
            all == texts(files@),
            n == language_count(all, lang@, i as int),
            n <= i,
        decreases files.len() - i,
    {
        assert(all[i as int] == files@[i as int]@);
        match find_language(files[i].as_str()) {
            Some(l) => {
                if same(l, lang) {
                    n += 1;
                }
            },
            None => {},
        }
        i += 1;
    }
    n
}

fn list_languages() -> (r: Vec<String>)
    ensures
        texts(r@) == languages(),
{
    let mut r: Vec<String> = Vec::new();
    put(&mut r, "c".to_owned());
    put(&mut r, "cpp".to_owned());
    put(&mut r, "markdown".to_owned());
    put(&mut r, "python".to_owned());
    put(&mut r, "rust".to_owned());
    put(&mut r, "toml".to_owned());
    assert(texts(r@) =~= languages());
    r
}

fn dominant_language(files: &Vec<String>) -> (r: Option<String>)
    ensures
        text_opt(r) == dominant(texts(files@)),
{
    let ls = list_languages();
    let ghost all = texts(files@);
    let mut best: Option<String> = None;
    let mut most: usize = 0;
    let mut i: usize = 0;
    while i < ls.len()
        invariant
            i <= ls.len(),
            all == texts(files@),
            texts(ls@) == languages(),
            text_opt(best) == leading_language(all, i as int),
            best is Some ==> most == language_count(all, best->0@, all.len() as int),
        decreases ls.len() - i,
    {
        assert(texts(ls@)[i as int] == ls@[i as int]@);
        let n = count_language(files, ls[i].as_str());
        assert(all.len() == files@.len());
        if n > 0 && (best.is_none() || n >= most) {
            best = Some(ls[i].clone());
            most = n;
        }
        i += 1;
    }
    assert(texts(ls@).len() == ls@.len());
    best
}

// ── deriving a configuration ───────────────────────────────────────────────────────────

/// What the facets of a node say.
pub open spec fn facet(rows: Seq<(Seq<char>, String)>, k: Seq<char>) -> Option<Seq<char>> {
    text_opt(value_of(rows, k))
}

/// Whether an authored node is the one that is derived from a directory with these files.
pub open spec fn derived(s: NodeSpec, rel: Seq<char>, files: Seq<Seq<char>>) -> bool {
    &&& s.id@ == path_id(rel)
    &&& text_opt(s.kind) == Some("composite"@)
    &&& text_opt(s.plane) == Some(plane_name(path_plane(rel)))
    &&& text_opt(s.parent) == Some(
        match parent_id(rel) {
            Some(p) => p,
            None => "."@,
        },
    )
    &&& texts(s.anchors@) == seq![path_id(rel)]
    &&& s.depends_on@.len() == 0
    &&& forall|k: Seq<char>| #[trigger]
        facet(s.facets@, k) == (if k == "plane"@ {
            Some(plane_name(path_plane(rel)))
        } else if k == "language"@ {
            dominant(files)
        } else {
            None
        })
}

impl Ranked for NodeSpec {
    open spec fn rank(&self) -> Seq<i64> {
        name_rank(false, self.id@)
    }
}

impl Keyed for NodeSpec {
    fn key(&self) -> (r: Vec<i64>) {
        name_key(false, self.id.as_str())
    }
}

/// The positions of the directories among the first `n` entries.
pub open spec fn dirs_upto(es: Seq<Entry>, n: int) -> Seq<int>
    decreases n,
{
    if n <= 0 {
        Seq::empty()
    } else if es[n - 1].is_dir {
        dirs_upto(es, n - 1).push(n - 1)
    } else {
        dirs_upto(es, n - 1)
    }
}

/// Whether authored nodes are those that are derived from the directories of a walk.
pub open spec fn derives(ns: Seq<NodeSpec>, es: Seq<Entry>, files: Seq<Vec<String>>, n: int) -> bool {
    let ds = dirs_upto(es, n);
    &&& ns.len() == ds.len()
    &&& forall|i: int|
        0 <= i < ns.len() ==> derived(
            #[trigger] ns[i],
            es[ds[i]].rel@,
            texts(files[ds[i]]@),
        )
}

/// The names that are skipped: those of the first list, and those of the first `n` of the second
/// that are new.
pub open spec fn skip_with(base: Seq<Seq<char>>, extra: Seq<Seq<char>>, n: int) -> Seq<Seq<char>>
    decreases n,
{
    if n <= 0 {
        base
    } else {
        let s = skip_with(base, extra, n - 1);
        if s.contains(extra[n - 1]) {
            s
        } else {
            s.push(extra[n - 1])
        }
    }
}

proof fn dirs_in_range(es: Seq<Entry>, n: int, i: int)
    requires
        0 <= i < dirs_upto(es, n).len(),
    ensures
        0 <= dirs_upto(es, n)[i] < n,
        es[dirs_upto(es, n)[i]].is_dir,
    decreases n,
{
    if es[n - 1].is_dir {
        if i < dirs_upto(es, n - 1).len() {
            dirs_in_range(es, n - 1, i);
        }
    } else {
        dirs_in_range(es, n - 1, i);
    }
}

fn derive_node(rel: &str, files: &Vec<String>) -> (r: NodeSpec)
    ensures
        derived(r, rel@, texts(files@)),
{
    let plane = match find_plane(rel) {
        Plane::Docs => "docs",
        Plane::Code => "code",
    };
    let mut facets: Table<String, false> = Table::new();
    let ghost f0 = facets@;
    facets.insert("plane".to_owned(), plane.to_owned());
    let ghost f1 = facets@;
    proof {
        reveal_strlit("plane");
        reveal_strlit("language");
        assert("plane"@.len() != "language"@.len());
    }
    let lang = dominant_language(files);
    match lang {
        Some(l) => {
            facets.insert("language".to_owned(), l);
        },
        None => {},
    }
    proof {
        assert forall|k: Seq<char>| #[trigger] facet(facets@, k) == (if k == "plane"@ {
            Some(plane_name(path_plane(rel@)))
        } else if k == "language"@ {
            dominant(texts(files@))
        } else {
            None
        }) by {
            if k != "language"@ {
                assert(value_of(facets@, k) == value_of(f1, k));
            }
            if k != "plane"@ {
                assert(value_of(f1, k) == value_of(f0, k));
            }
        }
    }
    let parent = match write_parent(rel) {
        Some(p) => p,
        None => ".".to_owned(),
    };
    let id = write_id(rel);
    let mut anchors: Vec<String> = Vec::new();
    put(&mut anchors, id.clone());
    assert(texts(anchors@) =~= seq![path_id(rel@)]);
    NodeSpec {
        id,
        kind: Some("composite".to_owned()),
        plane: Some(plane.to_owned()),
        parent: Some(parent),
        anchors,
        depends_on: Vec::new(),
        facets,
    }
}

impl Config {
    /// The configuration that is derived from the directories of a walk, see
    /// `from_dir_with_skip`.
    pub fn from_dir(entries: &Vec<Entry>, files: &Vec<Vec<String>>) -> (r: Config)
        requires
            entries@.len() == files@.len(),
        ensures
            exists|ns: Seq<NodeSpec>| #[trigger]
                derives(ns, entries@, files@, entries@.len() as int) && r.nodes@ == arranged(ns),
            r.bonsai.root@ == "."@,
            r.bonsai.version == 1,
            texts(r.bonsai.skip@) == skip_names(),
            r.bonsai.max_init_depth is None,
            r.docs is None,
            r.rules is None,
            r.contracts@.len() == 0,
            r.github is None,
    {
        let none: Vec<String> = Vec::new();
        Config::from_dir_with_skip(entries, files, &none)
    }

    /// The configuration that is derived from the directories of a walk: a composite node for
    /// each, in the node of the directory that it is in, by id. `files` gives the names of the
    /// files directly in each entry, by which its language is told. Names of `extra_skip` are
    /// added to those that are skipped.
    pub fn from_dir_with_skip(
        entries: &Vec<Entry>,
        files: &Vec<Vec<String>>,
        extra_skip: &Vec<String>,
    ) -> (r: Config)
        requires
            entries@.len() == files@.len(),
        ensures
            exists|ns: Seq<NodeSpec>| #[trigger]
                derives(ns, entries@, files@, entries@.len() as int) && r.nodes@ == arranged(ns),
            r.bonsai.root@ == "."@,
            r.bonsai.version == 1,
            texts(r.bonsai.skip@) == skip_with(
                skip_names(),
                texts(extra_skip@),
                extra_skip@.len() as int,
            ),
            r.bonsai.max_init_depth is None,
            r.docs is None,
            r.rules is None,
            r.contracts@.len() == 0,
            r.github is None,
    {
        let mut skip = default_skip();
        let ghost extra = texts(extra_skip@);
        let mut i: usize = 0;
        while i < extra_skip.len()
            invariant
                i <= extra_skip.len(),
                extra == texts(extra_skip@),
                texts(skip@) == skip_with(skip_names(), extra, i as int),
            decreases extra_skip.len() - i,
        {
            assert(extra[i as int] == extra_skip@[i as int]@);
            if !holds(&skip, extra_skip[i].as_str()) {
                put(&mut skip, extra_skip[i].clone());
            }
            i += 1;
        }
        let mut nodes: Vec<NodeSpec> = Vec::new();
        let mut i: usize = 0;
        while i < entries.len()
            invariant
                i <= entries.len() == files.len(),
                derives(nodes@, entries@, files@, i as int),
            decreases entries.len() - i,
        {
            let e = &entries[i];
            let ghost before = nodes@;
            if e.is_dir {
                let n = derive_node(e.rel.as_str(), &files[i]);
                nodes.push(n);
                proof {
                    let ds = dirs_upto(entries@, i as int);
                    assert(dirs_upto(entries@, i + 1) == ds.push(i as int));
                    assert forall|k: int| 0 <= k < nodes@.len() implies derived(
                        #[trigger] nodes@[k],
                        entries@[ds.push(i as int)[k]].rel@,
                        texts(files@[ds.push(i as int)[k]]@),
                    ) by {
                        if k < before.len() {
                            assert(derived(
                                before[k],
                                entries@[ds[k]].rel@,
                                texts(files@[ds[k]]@),
                            ));
                        }
                    }
                }
            }
            i += 1;
        }
        Config {
            bonsai: Meta { root: ".".to_owned(), version: 1, skip, max_init_depth: None },
            docs: None,
            nodes: arrange(nodes),
            rules: None,
            contracts: Vec::new(),
            github: None,
        }
    }
}

// ── the tree of a configuration ────────────────────────────────────────────────────────

/// What a node says, but for its children.
#[verifier::ext_equal]
pub struct NodeView {
    pub kind: Kind,
    pub plane: Plane,
    pub parent: Option<Seq<char>>,
    pub depends_on: Seq<Seq<char>>,
    pub anchors: Seq<Seq<char>>,
    pub facets: Map<Seq<char>, Seq<char>>,
}

/// The facets of a table as a map.
pub open spec fn facet_map(rows: Seq<(Seq<char>, String)>) -> Map<Seq<char>, Seq<char>> {
    Map::new(|k: Seq<char>| named(rows, k), |k: Seq<char>| value_of(rows, k)->0@)
}

/// What a node says, but for its children.
pub open spec fn node_view(n: Node) -> NodeView {
    NodeView {
        kind: n.kind,
        plane: n.plane,
        parent: text_opt(n.parent),
        depends_on: texts(n.depends_on@),
        anchors: texts(n.anchors@),
        facets: facet_map(n.facets@),
    }
}

/// The node of the root.
pub open spec fn root_view() -> NodeView {
    NodeView {
        kind: Kind::Composite,
        plane: Plane::Code,
        parent: None,
        depends_on: seq![],
        anchors: seq![],
        facets: Map::empty(),
    }
}

/// The node that an authored node stands for.
pub open spec fn spec_view(s: NodeSpec, root: Seq<char>) -> NodeView {
    NodeView {
        kind: spec_kind(s),
        plane: spec_plane(s),
        parent: Some(
            match s.parent {
                Some(p) => p@,
                None => root,
            },
        ),
        depends_on: texts(s.depends_on@),
        anchors: texts(s.anchors@),
        facets: facet_map(s.facets@),
    }
}

/// The root and the first `n` authored nodes; of two with one id the later one counts.
pub open spec fn authored(ns: Seq<NodeSpec>, root: Seq<char>, n: int) -> Map<Seq<char>, NodeView>
    decreases n,
{
    if n <= 0 {
        Map::empty().insert(root, root_view())
    } else {
        authored(ns, root, n - 1).insert(ns[n - 1].id@, spec_view(ns[n - 1], root))
    }
}

/// The nearest node at or above an id; the root where there is none.
pub open spec fn nearest(ids: Set<Seq<char>>, root: Seq<char>, id: Seq<char>) -> Seq<char>
    decreases id.len(),
{
    if ids.contains(id) {
        id
    } else {
        match rcut(id, "/"@) {
            Some((head, _)) => if head.len() < id.len() {
                nearest(ids, root, head)
            } else {
                root
            },
            None => root,
        }
    }
}

/// The node of a file, in the nearest node at or above its directory.
pub open spec fn file_view(rel: Seq<char>, home: Seq<char>) -> NodeView {
    NodeView {
        kind: Kind::Atom,
        plane: path_plane(rel),
        parent: Some(home),
        depends_on: seq![],
        anchors: seq![path_id(rel)],
        facets: match language_of(rel) {
            Some(l) => Map::empty().insert("language"@, l),
            None => Map::empty(),
        },
    }
}

/// The nodes with those of the files among the first `n` entries that have none yet.
pub open spec fn overlaid(
    m: Map<Seq<char>, NodeView>,
    root: Seq<char>,
    es: Seq<Entry>,
    n: int,
) -> Map<Seq<char>, NodeView>
    decreases n,
{
    if n <= 0 {
        m
    } else {
        let prior = overlaid(m, root, es, n - 1);
        let rel = es[n - 1].rel@;
        let id = path_id(rel);
        if es[n - 1].is_dir || prior.dom().contains(id) {
            prior
        } else {
            prior.insert(
                id,
                file_view(
                    rel,
                    match parent_id(rel) {
                        Some(p) => nearest(prior.dom(), root, p),
                        None => root,
                    },
                ),
            )
        }
    }
}

impl Config {
    /// The id of the root of the tree.
    pub open spec fn root_id(self) -> Seq<char> {
        if self.bonsai.root@.len() == 0 {
            "."@
        } else {
            self.bonsai.root@
        }
    }

    /// The nodes of the tree before the kinds that are left out are told.
    pub open spec fn placed_nodes(self, overlay: Option<&Vec<Entry>>) -> Map<Seq<char>, NodeView> {
        let base = authored(self.nodes@, self.root_id(), self.nodes@.len() as int);
        match overlay {
            Some(es) => overlaid(base, self.root_id(), es@, es@.len() as int),
            None => base,
        }
    }

    /// The nodes of the tree.
    pub open spec fn node_map(self, overlay: Option<&Vec<Entry>>) -> Map<Seq<char>, NodeView> {
        told(self.placed_nodes(overlay), self.nodes@)
    }
}

/// Whether an authored node leaves its kind out; of two with one id the later one counts.
pub open spec fn leaves_kind_out(ns: Seq<NodeSpec>, id: Seq<char>, n: int) -> bool
    decreases n,
{
    if n <= 0 {
        false
    } else if ns[n - 1].id@ == id {
        ns[n - 1].kind is None
    } else {
        leaves_kind_out(ns, id, n - 1)
    }
}

/// Whether a node has children: some node names it as its parent.
pub open spec fn has_children(m: Map<Seq<char>, NodeView>, id: Seq<char>) -> bool {
    exists|c: Seq<char>| #[trigger] m.dom().contains(c) && m[c].parent == Some(id)
}

/// The nodes with the kinds that are left out: an atom without children, a composite with them.
pub open spec fn told(m: Map<Seq<char>, NodeView>, ns: Seq<NodeSpec>) -> Map<Seq<char>, NodeView> {
    Map::new(
        |id: Seq<char>| m.dom().contains(id),
        |id: Seq<char>|
            if leaves_kind_out(ns, id, ns.len() as int) {
                NodeView {
                    kind: if has_children(m, id) {
                        Kind::Composite
                    } else {
                        Kind::Atom
                    },
                    ..m[id]
                }
            } else {
                m[id]
            },
    )
}

/// Whether a table holds exactly these nodes, each under its id.
pub open spec fn holds_nodes(rows: Seq<(Seq<char>, Node)>, m: Map<Seq<char>, NodeView>) -> bool {
    &&& forall|id: Seq<char>| #[trigger] named(rows, id) <==> m.dom().contains(id)
    &&& forall|id: Seq<char>| #[trigger]
        named(rows, id) ==> node_view(value_of(rows, id)->0) == m[id] && value_of(rows, id)->0.id@
            == id
}

/// Whether the children of every node are, in order, the nodes that name it as their parent.
pub open spec fn wired(rows: Seq<(Seq<char>, Node)>) -> bool {
    forall|id: Seq<char>| #[trigger]
        named(rows, id) ==> crate::order::strictly_ascending(
            texts(value_of(rows, id)->0.children@),
        ) && forall|c: Seq<char>| #[trigger]
            texts(value_of(rows, id)->0.children@).contains(c) <==> named(rows, c) && text_opt(
                value_of(rows, c)->0.parent,
            ) == Some(id)
}

pub(crate) fn copy_facets(t: &Table<String, false>) -> (r: Table<String, false>)
    ensures
        facet_map(r@) == facet_map(t@),
{
    let mut r: Table<String, false> = Table::new();
    let total = t.len();
    let mut i: usize = 0;
    while i < total
        invariant
            i <= total == t@.len(),
            in_order(false, t@),
            forall|k: Seq<char>| #[trigger]
                named(r@, k) <==> exists|j: int| 0 <= j < i && #[trigger] t@[j].0 == k,
            forall|j: int|
                0 <= j < i ==> text_opt(value_of(r@, (#[trigger] t@[j]).0)) == Some(t@[j].1@),
        decreases total - i,
    {
        let ghost before = r@;
        r.insert(t.name(i).clone(), t.value(i).clone());
        proof {
            let here = t@[i as int].0;
            assert forall|k: Seq<char>| #[trigger] named(r@, k) <==> exists|j: int|
                0 <= j < i + 1 && #[trigger] t@[j].0 == k by {
                if k == here {
                    assert(t@[i as int].0 == k);
                } else {
                    assert(named(r@, k) <==> named(before, k));
                }
            }
            assert forall|j: int| 0 <= j < i + 1 implies text_opt(
                value_of(r@, (#[trigger] t@[j]).0),
            ) == Some(t@[j].1@) by {
                if j < i {
                    row_unique(false, t@, j);
                    row_unique(false, t@, i as int);
                    assert(t@[j].0 != here);
                    assert(value_of(r@, t@[j].0) == value_of(before, t@[j].0));
                }
            }
        }
        i += 1;
    }
    proof {
        assert forall|k: Seq<char>| #[trigger] named(t@, k) implies named(r@, k) && value_of(r@, k)->0@
            == value_of(t@, k)->0@ by {
            let j = row_of(t@, k)->0;
            assert(t@[j].0 == k);
            row_unique(false, t@, j);
            assert(text_opt(value_of(r@, t@[j].0)) == Some(t@[j].1@));
        }
        assert forall|k: Seq<char>| #[trigger] named(r@, k) implies named(t@, k) by {
            let j = choose|j: int| 0 <= j < total && #[trigger] t@[j].0 == k;
            assert(t@[j].0 == k);
        }
        assert(facet_map(r@) =~= facet_map(t@));
    }
    r
}

fn put_node(nodes: &mut Table<Node, false>, n: Node, Ghost(m): Ghost<Map<Seq<char>, NodeView>>)
    requires
        holds_nodes(old(nodes)@, m),
    ensures
        holds_nodes(final(nodes)@, m.insert(n.id@, node_view(n))),
{
    let ghost before = nodes@;
    let ghost id = n.id@;
    let key = n.id.clone();
    nodes.insert(key, n);
    proof {
        let now = m.insert(id, node_view(n));
        assert forall|k: Seq<char>| #[trigger] named(nodes@, k) <==> now.dom().contains(k) by {
            if k != id {
                assert(named(nodes@, k) <==> named(before, k));
            }
        }
        assert forall|k: Seq<char>| #[trigger] named(nodes@, k) implies node_view(
            value_of(nodes@, k)->0,
        ) == now[k] && value_of(nodes@, k)->0.id@ == k by {
            if k != id {
                assert(named(before, k));
                assert(value_of(nodes@, k) == value_of(before, k));
            }
        }
    }
}

fn add_authored(
    nodes: &mut Table<Node, false>,
    specs: &Vec<NodeSpec>,
    root: &str,
)
    requires
        holds_nodes(old(nodes)@, authored(specs@, root@, 0)),
    ensures
        holds_nodes(final(nodes)@, authored(specs@, root@, specs@.len() as int)),
{
    let mut i: usize = 0;
    while i < specs.len()
        invariant
            i <= specs.len(),
            holds_nodes(nodes@, authored(specs@, root@, i as int)),
        decreases specs.len() - i,
    {
        let s = &specs[i];
        let mut n = Node::new(s.id.clone(), s.kind_of(), s.plane_of());
        let parent = match &s.parent {
            Some(p) => p.clone(),
            None => root.to_owned(),
        };
        n.parent = Some(parent);
        n.depends_on = copy_all(&s.depends_on);
        n.anchors = copy_all(&s.anchors);
        n.facets = copy_facets(&s.facets);
        assert(node_view(n) =~= spec_view(*s, root@));
        put_node(nodes, n, Ghost(authored(specs@, root@, i as int)));
        i += 1;
    }
}

fn nearest_node(
    nodes: &Table<Node, false>,
    root: &str,
    id: &str,
    Ghost(ids): Ghost<Set<Seq<char>>>,
) -> (r: String)
    requires
        forall|k: Seq<char>| #[trigger] named(nodes@, k) <==> ids.contains(k),
    ensures
        r@ == nearest(ids, root@, id@),
{
    let mut cur = id.to_owned();
    loop
        invariant
            forall|k: Seq<char>| #[trigger] named(nodes@, k) <==> ids.contains(k),
            nearest(ids, root@, id@) == nearest(ids, root@, cur@),
        decreases cur@.len(),
    {
        if nodes.contains(cur.as_str()) {
            return cur;
        }
        assert(!named(nodes@, cur@));
        proof {
            crate::text::rfind_from_facts(cur@, "/"@, cur@.len() - "/"@.len());
            reveal_strlit("/");
            assert("/"@.len() == 1);
        }
        match rsplit_once(cur.as_str(), "/") {
            Some((head, _tail)) => {
                assert(head@.len() < cur@.len());
                cur = head;
            },
            None => {
                return root.to_owned();
            },
        }
    }
}

fn make_file(rel: &str, home: String) -> (r: Node)
    ensures
        node_view(r) == file_view(rel@, home@),
        r.id@ == path_id(rel@),
{
    let mut n = Node::new(write_id(rel), Kind::Atom, find_plane(rel));
    n.parent = Some(home);
    let mut anchors: Vec<String> = Vec::new();
    put(&mut anchors, write_id(rel));
    n.anchors = anchors;
    let mut facets: Table<String, false> = Table::new();
    let ghost none = facets@;
    match find_language(rel) {
        Some(l) => {
            facets.insert("language".to_owned(), l.to_owned());
            proof {
                assert forall|k: Seq<char>| #[trigger] named(facets@, k) <==> k == "language"@ by {
                    if k != "language"@ {
                        assert(named(facets@, k) <==> named(none, k));
                    }
                }
                assert(facet_map(facets@) =~= Map::empty().insert("language"@, l@));
            }
        },
        None => {
            assert(facet_map(facets@) =~= Map::<Seq<char>, Seq<char>>::empty());
        },
    }
    n.facets = facets;
    assert(texts(n.depends_on@) =~= seq![]);
    assert(texts(n.anchors@) =~= seq![path_id(rel@)]);
    assert(node_view(n) =~= file_view(rel@, home@));
    n
}

fn overlay_files(
    nodes: &mut Table<Node, false>,
    root: &str,
    es: &Vec<Entry>,
    Ghost(base): Ghost<Map<Seq<char>, NodeView>>,
)
    requires
        holds_nodes(old(nodes)@, base),
    ensures
        holds_nodes(final(nodes)@, overlaid(base, root@, es@, es@.len() as int)),
{
    let mut i: usize = 0;
    while i < es.len()
        invariant
            i <= es.len(),
            holds_nodes(nodes@, overlaid(base, root@, es@, i as int)),
        decreases es.len() - i,
    {
        let e = &es[i];
        let ghost m = overlaid(base, root@, es@, i as int);
        let rel = e.rel.as_str();
        let id = write_id(rel);
        let known = nodes.contains(id.as_str());
        assert(known == m.dom().contains(path_id(rel@)));
        if !e.is_dir && !known {
            let home = match write_parent(rel) {
                Some(p) => nearest_node(nodes, root, p.as_str(), Ghost(m.dom())),
                None => root.to_owned(),
            };
            let n = make_file(rel, home);
            put_node(nodes, n, Ghost(m));
        }
        i += 1;
    }
}

/// From each parent to the nodes that name it.
fn list_parents(nodes: &Table<Node, false>) -> (r: Table<Names, false>)
    requires
        forall|id: Seq<char>| #[trigger] named(nodes@, id) ==> value_of(nodes@, id)->0.id@ == id,
    ensures
        forall|p: Seq<char>, c: Seq<char>| #[trigger]
            links(r@, p, c) <==> named(nodes@, c) && text_opt(value_of(nodes@, c)->0.parent)
                == Some(p),
{
    let mut t: Table<Names, false> = Table::new();
    let total = nodes.len();
    let mut i: usize = 0;
    while i < total
        invariant
            i <= total == nodes@.len(),
            in_order(false, nodes@),
            forall|id: Seq<char>| #[trigger]
                named(nodes@, id) ==> value_of(nodes@, id)->0.id@ == id,
            forall|p: Seq<char>, c: Seq<char>| #[trigger]
                links(t@, p, c) <==> exists|k: int|
                    0 <= k < i && #[trigger] nodes@[k].0 == c && text_opt(nodes@[k].1.parent)
                        == Some(p),
        decreases total - i,
    {
        let n = nodes.value(i);
        let ghost before = t@;
        proof {
            row_unique(false, nodes@, i as int);
            assert(named(nodes@, nodes@[i as int].0));
        }
        match &n.parent {
            Some(p) => {
                link(&mut t, p.as_str(), n.id.as_str());
                assert forall|q: Seq<char>, c: Seq<char>| #[trigger] links(t@, q, c) <==> exists|
                    k: int,
                |
                    0 <= k < i + 1 && #[trigger] nodes@[k].0 == c && text_opt(nodes@[k].1.parent)
                        == Some(q) by {
                    if q == p@ && c == n.id@ {
                        assert(nodes@[i as int].0 == c);
                    }
                    assert(links(t@, q, c) <==> links(before, q, c) || (q == p@ && c == n.id@));
                }
            },
            None => {
                assert forall|q: Seq<char>, c: Seq<char>| #[trigger] links(t@, q, c) <==> exists|
                    k: int,
                |
                    0 <= k < i + 1 && #[trigger] nodes@[k].0 == c && text_opt(nodes@[k].1.parent)
                        == Some(q) by {
                    assert(text_opt(nodes@[i as int].1.parent) != Some(q));
                }
            },
        }
        i += 1;
    }
    proof {
        assert forall|p: Seq<char>, c: Seq<char>| #[trigger] links(t@, p, c) <==> named(nodes@, c)
            && text_opt(value_of(nodes@, c)->0.parent) == Some(p) by {
            if links(t@, p, c) {
                let k = choose|k: int|
                    0 <= k < total && #[trigger] nodes@[k].0 == c && text_opt(nodes@[k].1.parent)
                        == Some(p);
                row_unique(false, nodes@, k);
                assert(named(nodes@, c));
            }
            if named(nodes@, c) && text_opt(value_of(nodes@, c)->0.parent) == Some(p) {
                let k = row_of(nodes@, c)->0;
                assert(nodes@[k].0 == c);
            }
        }
    }
    t
}

/// The names of a set, in order.
fn list_names(set: &Names) -> (r: Vec<String>)
    ensures
        crate::order::strictly_ascending(texts(r@)),
        forall|c: Seq<char>| #[trigger] texts(r@).contains(c) <==> named(set@, c),
{
    let mut r: Vec<String> = Vec::new();
    let total = set.len();
    let mut i: usize = 0;
    while i < total
        invariant
            i <= total == set@.len(),
            in_order(false, set@),
            r.len() == i,
            forall|k: int| 0 <= k < i ==> #[trigger] texts(r@)[k] == set@[k].0,
        decreases total - i,
    {
        let ghost before = texts(r@);
        put(&mut r, set.name(i).clone());
        assert forall|k: int| 0 <= k < i + 1 implies #[trigger] texts(r@)[k] == set@[k].0 by {
            if k < i {
                assert(before[k] == set@[k].0);
            }
        }
        i += 1;
    }
    proof {
        let l = texts(r@);
        assert(l.len() == total);
        assert forall|a: int, b: int| 0 <= a < b < l.len() implies crate::order::before(
            #[trigger] l[a].rank(),
            #[trigger] l[b].rank(),
        ) by {
            assert(crate::order::before(
                name_rank(false, set@[a].0),
                name_rank(false, set@[b].0),
            ));
        }
        assert forall|c: Seq<char>| #[trigger] l.contains(c) <==> named(set@, c) by {
            if l.contains(c) {
                let k = choose|k: int| 0 <= k < l.len() && l[k] == c;
                assert(set@[k].0 == c);
            }
            if named(set@, c) {
                let k = choose|k: int| 0 <= k < set@.len() && #[trigger] set@[k].0 == c;
                assert(l[k] == c);
            }
        }
    }
    r
}

/// Two nodes that differ in their children at most.
spec fn same_but_children(a: Node, b: Node) -> bool {
    node_view(a) == node_view(b) && a.id@ == b.id@ && a.parent == b.parent
}

/// Whether the first `i` rows have their children, and the others are as they were.
spec fn wired_upto(
    now: Seq<(Seq<char>, Node)>,
    before: Seq<(Seq<char>, Node)>,
    parents: Seq<(Seq<char>, Names)>,
    i: int,
) -> bool {
    &&& now.len() == before.len()
    &&& forall|k: int|
        0 <= k < now.len() ==> (#[trigger] now[k]).0 == before[k].0 && same_but_children(
            now[k].1,
            before[k].1,
        )
    &&& forall|k: int|
        0 <= k < i ==> crate::order::strictly_ascending(texts((#[trigger] now[k]).1.children@))
            && forall|c: Seq<char>| #[trigger]
            texts(now[k].1.children@).contains(c) <==> links(parents, before[k].0, c)
}

/// Gives every node its children.
fn wire_children(nodes: &mut Table<Node, false>, Ghost(m): Ghost<Map<Seq<char>, NodeView>>)
    requires
        holds_nodes(old(nodes)@, m),
    ensures
        holds_nodes(final(nodes)@, m),
        wired(final(nodes)@),
{
    let parents = list_parents(nodes);
    let total = nodes.len();
    let ghost before = nodes@;
    let mut i: usize = 0;
    while i < total
        invariant
            i <= total == nodes@.len(),
            in_order(false, nodes@),
            wired_upto(nodes@, before, parents@, i as int),
        decreases total - i,
    {
        let ghost rows = nodes@;
        let found = parents.get(nodes.name(i).as_str());
        let children = match found {
            Some(set) => list_names(set),
            None => {
                let none: Vec<String> = Vec::new();
                assert(texts(none@) =~= Seq::<Seq<char>>::empty());
                none
            },
        };
        assert(forall|c: Seq<char>| #[trigger]
            texts(children@).contains(c) <==> links(parents@, before[i as int].0, c));
        let mut n = nodes.swap(i, Node::new(String::new(), Kind::Atom, Plane::Code));
        let ghost was = n;
        n.children = children;
        assert(same_but_children(n, was));
        let _ = nodes.swap(i, n);
        assert(nodes@ =~= rows.update(i as int, (rows[i as int].0, n)));
        proof {
            assert forall|k: int| 0 <= k < nodes@.len() implies (#[trigger] nodes@[k]).0
                == before[k].0 && same_but_children(nodes@[k].1, before[k].1) by {
                assert(rows[k].0 == before[k].0);
            }
            assert forall|k: int| 0 <= k < i + 1 implies crate::order::strictly_ascending(
                texts((#[trigger] nodes@[k]).1.children@),
            ) && forall|c: Seq<char>| #[trigger]
                texts(nodes@[k].1.children@).contains(c) <==> links(parents@, before[k].0, c) by {
                if k < i {
                    assert(nodes@[k] == rows[k]);
                }
            }
        }
        i += 1;
    }
    proof {
        wired_rows(nodes@, before, parents@, m);
    }
}

proof fn wired_rows(
    now: Seq<(Seq<char>, Node)>,
    before: Seq<(Seq<char>, Node)>,
    parents: Seq<(Seq<char>, Names)>,
    m: Map<Seq<char>, NodeView>,
)
    requires
        in_order(false, now),
        in_order(false, before),
        holds_nodes(before, m),
        wired_upto(now, before, parents, now.len() as int),
        forall|p: Seq<char>, c: Seq<char>| #[trigger]
            links(parents, p, c) <==> named(before, c) && text_opt(value_of(before, c)->0.parent)
                == Some(p),
    ensures
        holds_nodes(now, m),
        wired(now),
{
    assert forall|id: Seq<char>| #[trigger] named(now, id) <==> named(before, id) by {
        if named(now, id) {
            let k = choose|k: int| 0 <= k < now.len() && #[trigger] now[k].0 == id;
            assert(before[k].0 == id);
        }
        if named(before, id) {
            let k = choose|k: int| 0 <= k < before.len() && #[trigger] before[k].0 == id;
            assert(now[k].0 == id);
        }
    }
    assert forall|id: Seq<char>| #[trigger] named(now, id) implies same_but_children(
        value_of(now, id)->0,
        value_of(before, id)->0,
    ) by {
        wired_row(now, before, parents, id);
    }
    assert forall|id: Seq<char>| #[trigger] named(now, id) implies node_view(value_of(now, id)->0)
        == m[id] && value_of(now, id)->0.id@ == id by {
        assert(named(before, id));
    }
    assert forall|id: Seq<char>| #[trigger] named(now, id) implies crate::order::strictly_ascending(
        texts(value_of(now, id)->0.children@),
    ) && forall|c: Seq<char>| #[trigger]
        texts(value_of(now, id)->0.children@).contains(c) <==> named(now, c) && text_opt(
            value_of(now, c)->0.parent,
        ) == Some(id) by {
        wired_row(now, before, parents, id);
        assert forall|c: Seq<char>| #[trigger]
            texts(value_of(now, id)->0.children@).contains(c) <==> named(now, c) && text_opt(
                value_of(now, c)->0.parent,
            ) == Some(id) by {
            assert(links(parents, id, c) <==> named(before, c) && text_opt(
                value_of(before, c)->0.parent,
            ) == Some(id));
            assert(named(now, c) <==> named(before, c));
        }
    }
}

proof fn wired_row(
    now: Seq<(Seq<char>, Node)>,
    before: Seq<(Seq<char>, Node)>,
    parents: Seq<(Seq<char>, Names)>,
    id: Seq<char>,
)
    requires
        in_order(false, now),
        in_order(false, before),
        wired_upto(now, before, parents, now.len() as int),
        named(now, id),
    ensures
        same_but_children(value_of(now, id)->0, value_of(before, id)->0),
        crate::order::strictly_ascending(texts(value_of(now, id)->0.children@)),
        forall|c: Seq<char>| #[trigger]
            texts(value_of(now, id)->0.children@).contains(c) <==> links(parents, id, c),
{
    let k = choose|k: int| 0 <= k < now.len() && #[trigger] now[k].0 == id;
    assert(before[k].0 == id);
    row_unique(false, now, k);
    row_unique(false, before, k);
}

/// The authored nodes, and whether each leaves its kind out.
fn list_open(specs: &Vec<NodeSpec>) -> (r: Table<bool, false>)
    ensures
        forall|id: Seq<char>|
            (#[trigger] value_of(r@, id) == Some(true)) == leaves_kind_out(
                specs@,
                id,
                specs@.len() as int,
            ),
{
    let mut t: Table<bool, false> = Table::new();
    let mut i: usize = 0;
    while i < specs.len()
        invariant
            i <= specs.len(),
            forall|id: Seq<char>|
                (#[trigger] value_of(t@, id) == Some(true)) == leaves_kind_out(
                    specs@,
                    id,
                    i as int,
                ),
        decreases specs.len() - i,
    {
        t.insert(specs[i].id.clone(), specs[i].kind.is_none());
        i += 1;
    }
    t
}

/// Whether the first `i` rows have the kinds that are left out, and the others are as they were.
spec fn told_upto(
    now: Seq<(Seq<char>, Node)>,
    before: Seq<(Seq<char>, Node)>,
    m: Map<Seq<char>, NodeView>,
    ns: Seq<NodeSpec>,
    i: int,
) -> bool {
    &&& now.len() == before.len()
    &&& forall|k: int|
        0 <= k < now.len() ==> (#[trigger] now[k]).0 == before[k].0 && now[k].1.id == before[k].1.id
            && now[k].1.parent == before[k].1.parent && now[k].1.children == before[k].1.children
            && node_view(now[k].1) == (if k < i {
            told(m, ns)[before[k].0]
        } else {
            node_view(before[k].1)
        })
}

/// Gives every node that leaves its kind out the one that its children tell.
fn tell_kinds(
    nodes: &mut Table<Node, false>,
    specs: &Vec<NodeSpec>,
    Ghost(m): Ghost<Map<Seq<char>, NodeView>>,
)
    requires
        holds_nodes(old(nodes)@, m),
        wired(old(nodes)@),
    ensures
        holds_nodes(final(nodes)@, told(m, specs@)),
        wired(final(nodes)@),
{
    let open = list_open(specs);
    let total = nodes.len();
    let ghost before = nodes@;
    let mut i: usize = 0;
    while i < total
        invariant
            i <= total == nodes@.len(),
            in_order(false, nodes@),
            in_order(false, before),
            holds_nodes(before, m),
            wired(before),
            forall|id: Seq<char>|
                (#[trigger] value_of(open@, id) == Some(true)) == leaves_kind_out(
                    specs@,
                    id,
                    specs@.len() as int,
                ),
            told_upto(nodes@, before, m, specs@, i as int),
        decreases total - i,
    {
        let ghost rows = nodes@;
        let ghost id = rows[i as int].0;
        let left_out = match open.get(nodes.name(i).as_str()) {
            Some(b) => *b,
            None => false,
        };
        proof {
            assert(before[i as int].0 == id);
            row_unique(false, before, i as int);
            assert(named(before, id));
            assert(left_out == (value_of(open@, id) == Some(true)));
        }
        let mut n = nodes.swap(i, Node::new(String::new(), Kind::Atom, Plane::Code));
        let ghost was = n;
        if left_out {
            n.kind = if n.children.len() == 0 {
                Kind::Atom
            } else {
                Kind::Composite
            };
        }
        proof {
            assert(was == rows[i as int].1);
            assert(was.children == before[i as int].1.children);
            childless(before, m, i as int);
            assert(node_view(n) =~= told(m, specs@)[id]);
        }
        let _ = nodes.swap(i, n);
        assert(nodes@ =~= rows.update(i as int, (id, n)));
        i += 1;
    }
    proof {
        told_rows(nodes@, before, m, specs@);
    }
}

/// A row has children where some node names it as its parent.
proof fn childless(rows: Seq<(Seq<char>, Node)>, m: Map<Seq<char>, NodeView>, i: int)
    requires
        in_order(false, rows),
        holds_nodes(rows, m),
        wired(rows),
        0 <= i < rows.len(),
    ensures
        rows[i].1.children@.len() > 0 <==> has_children(m, rows[i].0),
        m.dom().contains(rows[i].0),
        node_view(rows[i].1) == m[rows[i].0],
{
    let id = rows[i].0;
    row_unique(false, rows, i);
    assert(named(rows, id));
    let cs = texts(rows[i].1.children@);
    assert(cs.len() == rows[i].1.children@.len());
    if cs.len() > 0 {
        let c = cs[0];
        assert(cs.contains(c));
        assert(named(rows, c) && text_opt(value_of(rows, c)->0.parent) == Some(id));
        assert(m.dom().contains(c) && m[c].parent == Some(id));
    }
    if has_children(m, id) {
        let c = choose|c: Seq<char>| #[trigger] m.dom().contains(c) && m[c].parent == Some(id);
        assert(named(rows, c));
        assert(text_opt(value_of(rows, c)->0.parent) == Some(id));
        assert(cs.contains(c));
    }
}

proof fn told_rows(
    now: Seq<(Seq<char>, Node)>,
    before: Seq<(Seq<char>, Node)>,
    m: Map<Seq<char>, NodeView>,
    ns: Seq<NodeSpec>,
)
    requires
        in_order(false, now),
        in_order(false, before),
        holds_nodes(before, m),
        wired(before),
        told_upto(now, before, m, ns, now.len() as int),
    ensures
        holds_nodes(now, told(m, ns)),
        wired(now),
{
    assert forall|id: Seq<char>| #[trigger] named(now, id) <==> named(before, id) by {
        if named(now, id) {
            let k = choose|k: int| 0 <= k < now.len() && #[trigger] now[k].0 == id;
            assert(before[k].0 == id);
        }
        if named(before, id) {
            let k = choose|k: int| 0 <= k < before.len() && #[trigger] before[k].0 == id;
            assert(now[k].0 == id);
        }
    }
    assert forall|id: Seq<char>| #[trigger] named(now, id) implies {
        let a = value_of(now, id)->0;
        let b = value_of(before, id)->0;
        &&& a.id == b.id
        &&& a.parent == b.parent
        &&& a.children == b.children
        &&& node_view(a) == told(m, ns)[id]
    } by {
        let k = choose|k: int| 0 <= k < now.len() && #[trigger] now[k].0 == id;
        assert(before[k].0 == id);
        row_unique(false, now, k);
        row_unique(false, before, k);
    }
    assert forall|id: Seq<char>| #[trigger] named(now, id) implies crate::order::strictly_ascending(
        texts(value_of(now, id)->0.children@),
    ) && forall|c: Seq<char>| #[trigger]
        texts(value_of(now, id)->0.children@).contains(c) <==> named(now, c) && text_opt(
            value_of(now, c)->0.parent,
        ) == Some(id) by {
        assert(named(before, id));
        assert forall|c: Seq<char>| #[trigger]
            texts(value_of(now, id)->0.children@).contains(c) <==> named(now, c) && text_opt(
                value_of(now, c)->0.parent,
            ) == Some(id) by {
            assert(texts(value_of(before, id)->0.children@).contains(c) <==> named(before, c)
                && text_opt(value_of(before, c)->0.parent) == Some(id));
            assert(named(now, c) <==> named(before, c));
        }
    }
}

impl Config {
    /// The tree of the configuration: the root, the authored nodes, and with an overlay an atom
    /// for each file of a walk that has no node of its own, in the nearest node at or above its
    /// directory. Parents and children agree. A kind that is left out is told from the children, a
    /// plane from the path.
    pub fn into_tree(&self, overlay: Option<&Vec<Entry>>) -> (r: Tree)
        ensures
            r.root@ == self.root_id(),
            holds_nodes(r.nodes@, self.node_map(overlay)),
            wired(r.nodes@),
            in_order(false, r.nodes@),
            r.keyed(),
    {
        let root = if crate::text::chars(self.bonsai.root.as_str()).len() == 0 {
            ".".to_owned()
        } else {
            self.bonsai.root.clone()
        };
        let mut nodes: Table<Node, false> = Table::new();
        let top = Node::new(root.clone(), Kind::Composite, Plane::Code);
        proof {
            assert(texts(top.depends_on@) =~= seq![]);
            assert(texts(top.anchors@) =~= seq![]);
            assert(facet_map(top.facets@) =~= Map::<Seq<char>, Seq<char>>::empty());
            assert(node_view(top) =~= root_view());
        }
        put_node(&mut nodes, top, Ghost(Map::empty()));
        add_authored(&mut nodes, &self.nodes, root.as_str());
        match overlay {
            Some(es) => {
                overlay_files(
                    &mut nodes,
                    root.as_str(),
                    es,
                    Ghost(authored(self.nodes@, root@, self.nodes@.len() as int)),
                );
            },
            None => {},
        }
        wire_children(&mut nodes, Ghost(self.placed_nodes(overlay)));
        tell_kinds(&mut nodes, &self.nodes, Ghost(self.placed_nodes(overlay)));
        let _ = nodes.len();
        proof {
            assert forall|i: int| 0 <= i < nodes@.len() implies (#[trigger] nodes@[i]).1.id@
                == nodes@[i].0 by {
                row_unique(false, nodes@, i);
                assert(named(nodes@, nodes@[i].0));
            }
        }
        Tree { nodes, root }
    }
}

/// In the tree of a configuration parents and children agree: a node whose parent is a node is
/// among its children, and every child names the node that lists it.
pub proof fn one_home(rows: Seq<(Seq<char>, Node)>, p: Seq<char>, c: Seq<char>)
    requires
        wired(rows),
        named(rows, p),
    ensures
        texts(value_of(rows, p)->0.children@).contains(c) <==> named(rows, c) && text_opt(
            value_of(rows, c)->0.parent,
        ) == Some(p),
{
}

// ── what the overlay of files keeps ────────────────────────────────────────────────────

/// The id found after going up `k` times from `id`.
spec fn climb(m: Map<Seq<char>, NodeView>, id: Seq<char>, k: nat) -> Option<Seq<char>>
    decreases k,
{
    if k == 0 {
        Some(id)
    } else {
        match climb(m, id, (k - 1) as nat) {
            Some(x) => if m.dom().contains(x) {
                m[x].parent
            } else {
                None
            },
            None => None,
        }
    }
}

proof fn climb_is_up(t: Tree, m: Map<Seq<char>, NodeView>, id: Seq<char>, k: nat)
    requires
        holds_nodes(t.nodes@, m),
    ensures
        t.up(id, k) == climb(m, id, k),
    decreases k,
{
    if k > 0 {
        climb_is_up(t, m, id, (k - 1) as nat);
        match climb(m, id, (k - 1) as nat) {
            Some(x) => {
                assert(named(t.nodes@, x) <==> m.dom().contains(x));
                if named(t.nodes@, x) {
                    assert(node_view(value_of(t.nodes@, x)->0) == m[x]);
                }
            },
            None => {},
        }
    }
}

/// Whether one set of nodes holds another unchanged.
spec fn extends(m: Map<Seq<char>, NodeView>, n: Map<Seq<char>, NodeView>) -> bool {
    forall|id: Seq<char>| #[trigger] m.dom().contains(id) ==> n.dom().contains(id) && n[id] == m[id]
}

proof fn climb_extends(
    m: Map<Seq<char>, NodeView>,
    n: Map<Seq<char>, NodeView>,
    id: Seq<char>,
    k: nat,
)
    requires
        extends(m, n),
        climb(m, id, k) is Some,
    ensures
        climb(n, id, k) == climb(m, id, k),
    decreases k,
{
    if k > 0 {
        climb_extends(m, n, id, (k - 1) as nat);
        let x = climb(m, id, (k - 1) as nat)->0;
        assert(m.dom().contains(x));
    }
}

proof fn climb_shifts(m: Map<Seq<char>, NodeView>, id: Seq<char>, k: nat)
    requires
        m.dom().contains(id),
        m[id].parent is Some,
    ensures
        climb(m, id, k + 1) == climb(m, m[id].parent->0, k),
    decreases k,
{
    if k == 0 {
        assert(climb(m, id, 0) == Some(id));
        assert(climb(m, id, 1) == m[id].parent);
    } else {
        climb_shifts(m, id, (k - 1) as nat);
    }
}

proof fn nearest_is_node(ids: Set<Seq<char>>, root: Seq<char>, id: Seq<char>)
    requires
        ids.contains(root),
    ensures
        ids.contains(nearest(ids, root, id)),
    decreases id.len(),
{
    if !ids.contains(id) {
        match rcut(id, "/"@) {
            Some((head, _)) => {
                if head.len() < id.len() {
                    nearest_is_node(ids, root, head);
                }
            },
            None => {},
        }
    }
}

/// Whether nodes hang together: the root alone has no parent, every other parent is a node, and
/// the way up from every node arrives at the root.
spec fn hangs(m: Map<Seq<char>, NodeView>, root: Seq<char>) -> bool {
    &&& m.dom().contains(root)
    &&& forall|id: Seq<char>| #[trigger]
        m.dom().contains(id) ==> (m[id].parent is None <==> id == root)
    &&& forall|id: Seq<char>| #[trigger]
        m.dom().contains(id) && m[id].parent is Some ==> m.dom().contains(m[id].parent->0)
    &&& forall|id: Seq<char>| #[trigger]
        m.dom().contains(id) ==> exists|k: nat| climb(m, id, k) == Some(root)
}

/// Whether what is new in a set of nodes depends on nothing.
spec fn adds_no_dependency(m: Map<Seq<char>, NodeView>, n: Map<Seq<char>, NodeView>) -> bool {
    forall|id: Seq<char>| #[trigger]
        n.dom().contains(id) && !m.dom().contains(id) ==> n[id].depends_on.len() == 0
}

proof fn overlay_hangs(
    m: Map<Seq<char>, NodeView>,
    root: Seq<char>,
    es: Seq<Entry>,
    n: int,
)
    requires
        hangs(m, root),
    ensures
        hangs(overlaid(m, root, es, n), root),
        extends(m, overlaid(m, root, es, n)),
        adds_no_dependency(m, overlaid(m, root, es, n)),
    decreases n,
{
    if n > 0 {
        overlay_hangs(m, root, es, n - 1);
        let prior = overlaid(m, root, es, n - 1);
        let now = overlaid(m, root, es, n);
        let rel = es[n - 1].rel@;
        let id = path_id(rel);
        if !es[n - 1].is_dir && !prior.dom().contains(id) {
            let home = match parent_id(rel) {
                Some(p) => nearest(prior.dom(), root, p),
                None => root,
            };
            if let Some(p) = parent_id(rel) {
                nearest_is_node(prior.dom(), root, p);
            }
            assert(prior.dom().contains(home));
            assert(now == prior.insert(id, file_view(rel, home)));
            assert(extends(prior, now));
            assert forall|x: Seq<char>| #[trigger] now.dom().contains(x) implies exists|k: nat|
                climb(now, x, k) == Some(root) by {
                if x == id {
                    let k = choose|k: nat| climb(prior, home, k) == Some(root);
                    climb_extends(prior, now, home, k);
                    climb_shifts(now, id, k);
                    assert(climb(now, id, k + 1) == Some(root));
                } else {
                    assert(prior.dom().contains(x));
                    let k = choose|k: nat| climb(prior, x, k) == Some(root);
                    climb_extends(prior, now, x, k);
                }
            }
            assert forall|x: Seq<char>| #[trigger] now.dom().contains(x) && now[x].parent is Some implies now.dom().contains(
            now[x].parent->0) by {
                if x != id {
                    assert(prior.dom().contains(x));
                }
            }
            assert forall|x: Seq<char>| #[trigger] now.dom().contains(x) implies (now[x].parent is None
                <==> x == root) by {
                if x != id {
                    assert(prior.dom().contains(x));
                }
            }
        }
    }
}

proof fn sound_hangs(t: Tree, m: Map<Seq<char>, NodeView>)
    requires
        t.keyed(),
        holds_nodes(t.nodes@, m),
        t.sound(),
    ensures
        hangs(m, t.root@),
{
    assert forall|id: Seq<char>| #[trigger] m.dom().contains(id) implies (m[id].parent is None <==> id
        == t.root@) && (m[id].parent is Some ==> m.dom().contains(m[id].parent->0)) && exists|k: nat|
        climb(m, id, k) == Some(t.root@) by {
        assert(named(t.nodes@, id));
        let i = row_of(t.nodes@, id)->0;
        assert(t.nodes@[i].0 == id);
        assert(t.nodes@[i].1.id@ == id);
        assert(value_of(t.nodes@, id) == Some(t.nodes@[i].1));
        if m[id].parent is Some {
            assert(named(t.nodes@, m[id].parent->0));
        }
        assert(t.rooted(id));
        let k = choose|k: nat| #[trigger] t.up(id, k) == Some(t.root@);
        climb_is_up(t, m, id, k);
    }
}

proof fn hanging_is_sound(t: Tree, m: Map<Seq<char>, NodeView>)
    requires
        t.keyed(),
        in_order(false, t.nodes@),
        wired(t.nodes@),
        holds_nodes(t.nodes@, m),
        hangs(m, t.root@),
        forall|id: Seq<char>, d: Seq<char>|
            m.dom().contains(id) && #[trigger] m[id].depends_on.contains(d) ==> m.dom().contains(d),
    ensures
        t.sound(),
{
    assert(named(t.nodes@, t.root@));
    assert forall|i: int| 0 <= i < t.nodes@.len() implies {
        let n = (#[trigger] t.nodes@[i]).1;
        &&& n.parent is None <==> n.id@ == t.root@
        &&& n.parent is Some ==> (match value_of(t.nodes@, n.parent->0@) {
            Some(q) => texts(q.children@).contains(n.id@),
            None => false,
        })
        &&& forall|k: int|
            0 <= k < n.children@.len() ==> (match value_of(t.nodes@, #[trigger] n.children@[k]@) {
                Some(q) => text_opt(q.parent) == Some(n.id@),
                None => false,
            })
        &&& forall|k: int|
            0 <= k < n.depends_on@.len() ==> named(t.nodes@, #[trigger] n.depends_on@[k]@)
        &&& t.rooted(n.id@)
    } by {
        let n = t.nodes@[i].1;
        let id = t.nodes@[i].0;
        row_unique(false, t.nodes@, i);
        assert(n.id@ == id);
        assert(named(t.nodes@, id));
        assert(m.dom().contains(id));
        assert(node_view(n) == m[id]);
        if n.parent is Some {
            let p = n.parent->0@;
            assert(m[id].parent == Some(p));
            assert(named(t.nodes@, p));
            one_home(t.nodes@, p, id);
        }
        assert forall|k: int| 0 <= k < n.children@.len() implies (match value_of(
            t.nodes@,
            #[trigger] n.children@[k]@,
        ) {
            Some(q) => text_opt(q.parent) == Some(n.id@),
            None => false,
        }) by {
            let c = n.children@[k]@;
            assert(texts(n.children@)[k] == c);
            one_home(t.nodes@, id, c);
        }
        assert forall|k: int| 0 <= k < n.depends_on@.len() implies named(
            t.nodes@,
            #[trigger] n.depends_on@[k]@,
        ) by {
            let d = n.depends_on@[k]@;
            assert(texts(n.depends_on@)[k] == d);
            assert(m[id].depends_on.contains(d));
            assert(m.dom().contains(d));
        }
        let k = choose|k: nat| climb(m, id, k) == Some(t.root@);
        climb_is_up(t, m, id, k);
        assert(t.up(id, k) == Some(t.root@));
    }
}

proof fn climb_told(m: Map<Seq<char>, NodeView>, ns: Seq<NodeSpec>, id: Seq<char>, k: nat)
    ensures
        climb(told(m, ns), id, k) == climb(m, id, k),
    decreases k,
{
    if k > 0 {
        climb_told(m, ns, id, (k - 1) as nat);
        if let Some(x) = climb(m, id, (k - 1) as nat) {
            assert(told(m, ns).dom().contains(x) <==> m.dom().contains(x));
        }
    }
}

/// Telling kinds changes nothing of how nodes hang together.
proof fn told_hangs(m: Map<Seq<char>, NodeView>, ns: Seq<NodeSpec>, root: Seq<char>)
    ensures
        hangs(m, root) <==> hangs(told(m, ns), root),
{
    let n = told(m, ns);
    assert forall|id: Seq<char>| #[trigger] m.dom().contains(id) <==> n.dom().contains(id) by {}
    assert forall|id: Seq<char>| #[trigger] m.dom().contains(id) implies n[id].parent
        == m[id].parent && ((exists|k: nat| climb(m, id, k) == Some(root)) <==> (exists|k: nat|
        climb(n, id, k) == Some(root))) by {
        assert forall|k: nat| #[trigger] climb(n, id, k) == climb(m, id, k) by {
            climb_told(m, ns, id, k);
        }
        if exists|k: nat| climb(m, id, k) == Some(root) {
            let k = choose|k: nat| climb(m, id, k) == Some(root);
            assert(climb(n, id, k) == Some(root));
        }
        if exists|k: nat| climb(n, id, k) == Some(root) {
            let k = choose|k: nat| climb(n, id, k) == Some(root);
            assert(climb(m, id, k) == Some(root));
        }
    }
    if hangs(m, root) {
        assert forall|id: Seq<char>| #[trigger] n.dom().contains(id) implies (n[id].parent is None <==> id
            == root) && (n[id].parent is Some ==> n.dom().contains(n[id].parent->0)) && exists|k: nat|
            climb(n, id, k) == Some(root) by {
            assert(m.dom().contains(id));
            if n[id].parent is Some {
                assert(m.dom().contains(m[id].parent->0));
            }
        }
    }
    if hangs(n, root) {
        assert forall|id: Seq<char>| #[trigger] m.dom().contains(id) implies (m[id].parent is None <==> id
            == root) && (m[id].parent is Some ==> m.dom().contains(m[id].parent->0)) && exists|k: nat|
            climb(m, id, k) == Some(root) by {
            assert(n.dom().contains(id));
            if m[id].parent is Some {
                assert(n.dom().contains(n[id].parent->0));
            }
        }
    }
}

/// Laying the files of a repository over an authored tree keeps the tree sound: where the authored
/// nodes alone make a tree with nothing against it, so do they with the files, each of which gets
/// one home, the nearest node at or above its directory.
pub proof fn overlay_keeps_sound(cfg: Config, es: Vec<Entry>, bare: Tree, full: Tree)
    requires
        bare.root@ == cfg.root_id(),
        full.root@ == cfg.root_id(),
        bare.keyed(),
        full.keyed(),
        in_order(false, bare.nodes@),
        in_order(false, full.nodes@),
        holds_nodes(bare.nodes@, cfg.node_map(None)),
        holds_nodes(full.nodes@, cfg.node_map(Some(&es))),
        wired(full.nodes@),
        bare.sound(),
        !bare.dep_cyclic(),
    ensures
        full.sound(),
        !full.dep_cyclic(),
{
    let root = cfg.root_id();
    let placed = cfg.placed_nodes(None);
    let laid = cfg.placed_nodes(Some(&es));
    let m = cfg.node_map(None);
    let n = cfg.node_map(Some(&es));
    sound_hangs(bare, m);
    told_hangs(placed, cfg.nodes@, root);
    overlay_hangs(placed, root, es@, es@.len() as int);
    told_hangs(laid, cfg.nodes@, root);
    assert forall|id: Seq<char>| #[trigger] m.dom().contains(id) implies n.dom().contains(id)
        && n[id].depends_on == m[id].depends_on by {
        assert(placed.dom().contains(id));
    }
    assert forall|id: Seq<char>| #[trigger] n.dom().contains(id) && !m.dom().contains(id) implies n[id].depends_on.len()
        == 0 by {
        assert(laid.dom().contains(id) && !placed.dom().contains(id));
    }
    assert forall|id: Seq<char>, d: Seq<char>|
        n.dom().contains(id) && #[trigger] n[id].depends_on.contains(d) implies n.dom().contains(d) by {
        if m.dom().contains(id) {
            assert(n[id].depends_on == m[id].depends_on);
            bare_dependency(bare, m, id, d);
            assert(m.dom().contains(d));
        } else {
            assert(n[id].depends_on.len() == 0);
        }
    }
    hanging_is_sound(full, n);
    if full.dep_cyclic() {
        let p = choose|p: Seq<Seq<char>>| #[trigger]
            full.dep_walk(p) && p.len() >= 2 && p[0] == p.last();
        assert forall|i: int| 0 <= i < p.len() - 1 implies named(bare.nodes@, #[trigger] p[i])
            && bare.depends(p[i], p[i + 1]) by {
            assert(full.depends(p[i], p[i + 1]));
            assert(named(full.nodes@, p[i]));
            assert(node_view(value_of(full.nodes@, p[i])->0) == n[p[i]]);
            assert(n[p[i]].depends_on.contains(p[i + 1]));
            if !m.dom().contains(p[i]) {
                assert(n.dom().contains(p[i]));
                assert(n[p[i]].depends_on.len() == 0);
            }
            assert(m.dom().contains(p[i]));
            assert(named(bare.nodes@, p[i]));
            assert(node_view(value_of(bare.nodes@, p[i])->0) == m[p[i]]);
            bare_dependency(bare, m, p[i], p[i + 1]);
        }
        assert(named(bare.nodes@, p[0]));
        assert(bare.dep_walk(p)) by {
            assert forall|i: int| 0 <= i < p.len() implies named(bare.nodes@, #[trigger] p[i]) by {
                if i == p.len() - 1 {
                    assert(p[i] == p[0]);
                }
            }
        }
        assert(bare.dep_cyclic());
    }
}

/// In a sound tree what a node depends on is a node.
proof fn bare_dependency(t: Tree, m: Map<Seq<char>, NodeView>, id: Seq<char>, d: Seq<char>)
    requires
        t.keyed(),
        holds_nodes(t.nodes@, m),
        t.sound(),
        m.dom().contains(id),
        m[id].depends_on.contains(d),
    ensures
        m.dom().contains(d),
        named(t.nodes@, d),
{
    assert(named(t.nodes@, id));
    let i = row_of(t.nodes@, id)->0;
    let n = t.nodes@[i].1;
    assert(t.nodes@[i].0 == id);
    assert(value_of(t.nodes@, id) == Some(n));
    assert(texts(n.depends_on@) == m[id].depends_on);
    let k = choose|k: int| 0 <= k < texts(n.depends_on@).len() && texts(n.depends_on@)[k] == d;
    assert(n.depends_on@[k]@ == d);
    assert(named(t.nodes@, n.depends_on@[k]@));
}

// ── what a derived configuration promises ──────────────────────────────────────────────

/// Whether entries are those of a walk: no directory is the root itself, and the directory that a
/// directory is in is among them.
pub open spec fn walked(es: Seq<Entry>) -> bool {
    forall|i: int|
        0 <= i < es.len() && (#[trigger] es[i]).is_dir ==> path_id(es[i].rel@) != "."@ && (
        match parent_id(es[i].rel@) {
            Some(p) => exists|j: int|
                0 <= j < es.len() && (#[trigger] es[j]).is_dir && path_id(es[j].rel@) == p,
            None => true,
        })
}

proof fn dirs_cover(es: Seq<Entry>, n: int, i: int) -> (k: int)
    requires
        0 <= i < n <= es.len(),
        es[i].is_dir,
    ensures
        0 <= k < dirs_upto(es, n).len(),
        dirs_upto(es, n)[k] == i,
    decreases n,
{
    if i == n - 1 {
        dirs_upto(es, n).len() - 1
    } else {
        dirs_cover(es, n - 1, i)
    }
}

proof fn authored_facts(xs: Seq<NodeSpec>, root: Seq<char>, n: int)
    requires
        0 <= n <= xs.len(),
    ensures
        forall|id: Seq<char>| #[trigger]
            authored(xs, root, n).dom().contains(id) && id != root ==> exists|i: int|
                0 <= i < n && (#[trigger] xs[i]).id@ == id && authored(xs, root, n)[id]
                    == spec_view(xs[i], root),
        forall|i: int| 0 <= i < n ==> authored(xs, root, n).dom().contains((#[trigger] xs[i]).id@),
        authored(xs, root, n).dom().contains(root),
        (forall|i: int| 0 <= i < n ==> (#[trigger] xs[i]).id@ != root) ==> authored(xs, root, n)[root]
            == root_view(),
    decreases n,
{
    if n > 0 {
        authored_facts(xs, root, n - 1);
        let m = authored(xs, root, n);
        assert forall|id: Seq<char>| #[trigger] m.dom().contains(id) && id != root implies exists|
            i: int,
        |
            0 <= i < n && (#[trigger] xs[i]).id@ == id && m[id] == spec_view(xs[i], root) by {
            if id == xs[n - 1].id@ {
                assert(m[id] == spec_view(xs[n - 1], root));
            } else {
                assert(authored(xs, root, n - 1).dom().contains(id));
                let i = choose|i: int|
                    0 <= i < n - 1 && (#[trigger] xs[i]).id@ == id && authored(xs, root, n - 1)[id]
                        == spec_view(xs[i], root);
                assert(m[id] == spec_view(xs[i], root));
            }
        }
    }
}

proof fn sorted_from(ns: Seq<NodeSpec>, i: int) -> (j: int)
    requires
        0 <= i < arranged(ns).len(),
    ensures
        0 <= j < ns.len(),
        ns[j] == arranged(ns)[i],
{
    let x = arranged(ns)[i];
    assert(arranged(ns).contains(x));
    crate::order::arranged_contains(ns, x);
    choose|j: int| 0 <= j < ns.len() && ns[j] == x
}

/// What is known of a node of a derived configuration.
spec fn from_entry(m: Map<Seq<char>, NodeView>, id: Seq<char>, e: Entry) -> bool {
    &&& e.is_dir
    &&& path_id(e.rel@) == id
    &&& m[id].parent == Some(
        match parent_id(e.rel@) {
            Some(p) => p,
            None => "."@,
        },
    )
    &&& m[id].depends_on.len() == 0
}

proof fn derived_facts(ns: Seq<NodeSpec>, es: Seq<Entry>, files: Seq<Vec<String>>)
    requires
        derives(ns, es, files, es.len() as int),
        walked(es),
    ensures
        ({
            let m = authored(arranged(ns), "."@, ns.len() as int);
            &&& m.dom().contains("."@)
            &&& m["."@] == root_view()
            &&& forall|id: Seq<char>| #[trigger]
                m.dom().contains(id) && id != "."@ ==> exists|i: int|
                    0 <= i < es.len() && from_entry(m, id, #[trigger] es[i])
            &&& forall|i: int|
                0 <= i < es.len() && (#[trigger] es[i]).is_dir ==> m.dom().contains(
                    path_id(es[i].rel@),
                )
        }),
        arranged(ns).len() == ns.len(),
{
    let xs = arranged(ns);
    let n = es.len() as int;
    let ds = dirs_upto(es, n);
    crate::order::arranged_facts(ns);
    ns.to_multiset_ensures();
    xs.to_multiset_ensures();
    assert(xs.len() == ns.len());
    authored_facts(xs, "."@, xs.len() as int);
    let m = authored(xs, "."@, xs.len() as int);
    assert forall|i: int| 0 <= i < xs.len() implies (#[trigger] xs[i]).id@ != "."@ by {
        let j = sorted_from(ns, i);
        dirs_in_range(es, n, j);
        assert(derived(ns[j], es[ds[j]].rel@, texts(files[ds[j]]@)));
    }
    assert forall|id: Seq<char>| #[trigger] m.dom().contains(id) && id != "."@ implies exists|i: int|
        0 <= i < es.len() && from_entry(m, id, #[trigger] es[i]) by {
        let i = choose|i: int|
            0 <= i < xs.len() && (#[trigger] xs[i]).id@ == id && m[id] == spec_view(xs[i], "."@);
        let j = sorted_from(ns, i);
        dirs_in_range(es, n, j);
        assert(derived(ns[j], es[ds[j]].rel@, texts(files[ds[j]]@)));
        assert(from_entry(m, id, es[ds[j]]));
    }
    assert forall|i: int| 0 <= i < es.len() && (#[trigger] es[i]).is_dir implies m.dom().contains(
        path_id(es[i].rel@),
    ) by {
        let k = dirs_cover(es, n, i);
        assert(derived(ns[k], es[ds[k]].rel@, texts(files[ds[k]]@)));
        assert(ns.contains(ns[k]));
        crate::order::arranged_contains(ns, ns[k]);
        let q = choose|q: int| 0 <= q < xs.len() && xs[q] == ns[k];
        assert(m.dom().contains(xs[q].id@));
    }
}

/// The id of a directory is shorter than those of what is in it.
proof fn parent_is_shorter(rel: Seq<char>)
    ensures
        parent_id(rel) is Some ==> parent_id(rel)->0.len() < path_id(rel).len(),
{
    let c = components_of(rel);
    if c.len() > 1 {
        reveal_strlit("/");
        let d = c.drop_last();
        joined_same(c, d, c.len() - 1);
    }
}

proof fn joined_same(v: Seq<Seq<char>>, w: Seq<Seq<char>>, n: int)
    requires
        0 <= n <= v.len(),
        n <= w.len(),
        forall|i: int| 0 <= i < n ==> v[i] == w[i],
    ensures
        crate::text::joined_upto(v, "/"@, n) == crate::text::joined_upto(w, "/"@, n),
    decreases n,
{
    if n > 1 {
        joined_same(v, w, n - 1);
    }
}

proof fn derived_climbs(m: Map<Seq<char>, NodeView>, es: Seq<Entry>, id: Seq<char>) -> (k: nat)
    requires
        walked(es),
        forall|id: Seq<char>| #[trigger]
            m.dom().contains(id) && id != "."@ ==> exists|i: int|
                0 <= i < es.len() && from_entry(m, id, #[trigger] es[i]),
        forall|i: int|
            0 <= i < es.len() && (#[trigger] es[i]).is_dir ==> m.dom().contains(
                path_id(es[i].rel@),
            ),
        m.dom().contains(id),
    ensures
        climb(m, id, k) == Some("."@),
    decreases id.len(),
{
    if id == "."@ {
        0
    } else {
        let i = choose|i: int| 0 <= i < es.len() && from_entry(m, id, #[trigger] es[i]);
        match parent_id(es[i].rel@) {
            Some(p) => {
                parent_is_shorter(es[i].rel@);
                let j = choose|j: int|
                    0 <= j < es.len() && (#[trigger] es[j]).is_dir && path_id(es[j].rel@) == p;
                assert(m.dom().contains(path_id(es[j].rel@)));
                let k = derived_climbs(m, es, p);
                climb_shifts(m, id, k);
                k + 1
            },
            None => {
                climb_shifts(m, id, 0);
                1
            },
        }
    }
}

/// A derived configuration makes a sound tree: the nodes that are derived from the directories of a
/// walk have nothing against them.
pub proof fn derived_is_sound(
    cfg: Config,
    ns: Seq<NodeSpec>,
    es: Seq<Entry>,
    files: Seq<Vec<String>>,
    t: Tree,
)
    requires
        derives(ns, es, files, es.len() as int),
        walked(es),
        cfg.nodes@ == arranged(ns),
        cfg.bonsai.root@ == "."@,
        t.root@ == cfg.root_id(),
        t.keyed(),
        in_order(false, t.nodes@),
        wired(t.nodes@),
        holds_nodes(t.nodes@, cfg.node_map(None)),
    ensures
        t.sound(),
        !t.dep_cyclic(),
{
    reveal_strlit(".");
    let m = authored(arranged(ns), "."@, ns.len() as int);
    let n = cfg.node_map(None);
    derived_facts(ns, es, files);
    assert forall|id: Seq<char>| #[trigger] m.dom().contains(id) implies (m[id].parent is None <==> id
        == "."@) && (m[id].parent is Some ==> m.dom().contains(m[id].parent->0)) && exists|k: nat|
        climb(m, id, k) == Some("."@) by {
        let k = derived_climbs(m, es, id);
        assert(climb(m, id, k) == Some("."@));
        if id != "."@ {
            let i = choose|i: int| 0 <= i < es.len() && from_entry(m, id, #[trigger] es[i]);
            if let Some(p) = parent_id(es[i].rel@) {
                let j = choose|j: int|
                    0 <= j < es.len() && (#[trigger] es[j]).is_dir && path_id(es[j].rel@) == p;
                assert(m.dom().contains(path_id(es[j].rel@)));
            }
        }
    }
    assert forall|id: Seq<char>| #[trigger] m.dom().contains(id) implies m[id].depends_on.len() == 0 by {
        if id != "."@ {
            let i = choose|i: int| 0 <= i < es.len() && from_entry(m, id, #[trigger] es[i]);
        }
    }
    assert(cfg.placed_nodes(None) == m);
    told_hangs(m, cfg.nodes@, "."@);
    assert forall|id: Seq<char>| #[trigger] n.dom().contains(id) implies n[id].depends_on.len() == 0 by {
        assert(m.dom().contains(id));
    }
    hanging_is_sound(t, n);
    if t.dep_cyclic() {
        let p = choose|p: Seq<Seq<char>>| #[trigger]
            t.dep_walk(p) && p.len() >= 2 && p[0] == p.last();
        assert(t.depends(p[0], p[1]));
        assert(named(t.nodes@, p[0]));
        assert(node_view(value_of(t.nodes@, p[0])->0) == n[p[0]]);
        assert(n.dom().contains(p[0]));
        assert(n[p[0]].depends_on.contains(p[1]));
    }
}

} // verus!
