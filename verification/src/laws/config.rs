//! Which nodes the tree of a configuration has, and what they say.
use vstd::prelude::*;

use crate::config::{
    authored, dominant, has_children, language_count, language_of, languages, leading_language,
    leaves_kind_out, nearest, overlaid, path_id, path_plane, root_view, skip_with, spec_view, told,
    Config, NodeSpec, NodeView,
};
use crate::model::{Kind, Plane};
use crate::moves::extension_of;
use crate::text::{at, rfind, rfind_from_facts};
use crate::walk::Entry;

verus! {

// ── authored nodes ─────────────────────────────────────────────────────────────────────

/// Whether the authored node at a position is the last with an id.
pub open spec fn last_authored(ns: Seq<NodeSpec>, id: Seq<char>, k: int) -> bool {
    &&& 0 <= k < ns.len()
    &&& ns[k].id@ == id
    &&& forall|j: int| k < j < ns.len() ==> (#[trigger] ns[j]).id@ != id
}

proof fn authored_on(ns: Seq<NodeSpec>, root: Seq<char>, id: Seq<char>, n: int)
    requires
        0 <= n <= ns.len(),
    ensures
        ({
            let m = authored(ns, root, n);
            &&& forall|k: int| #[trigger]
                last_authored(ns.take(n), id, k) ==> m.dom().contains(id) && m[id] == spec_view(
                    ns[k],
                    root,
                )
            &&& (forall|k: int| !#[trigger] last_authored(ns.take(n), id, k)) ==> (m.dom().contains(id)
                <==> id == root) && (id == root ==> m[id] == root_view())
        }),
    decreases n,
{
    let m = authored(ns, root, n);
    if n > 0 {
        authored_on(ns, root, id, n - 1);
        let a = ns.take(n);
        let b = ns.take(n - 1);
        if ns[n - 1].id@ == id {
            assert(last_authored(a, id, n - 1));
            assert forall|k: int| #[trigger] last_authored(a, id, k) implies m.dom().contains(id)
                && m[id] == spec_view(ns[k], root) by {
                if k < n - 1 {
                    assert(a[n - 1].id@ != id);
                }
            }
        } else {
            assert forall|k: int| last_authored(a, id, k) == #[trigger] last_authored(b, id, k) by {
                if last_authored(b, id, k) {
                    assert forall|j: int| k < j < a.len() implies (#[trigger] a[j]).id@ != id by {
                        if j < n - 1 {
                            assert(b[j] == a[j]);
                        }
                    }
                    assert(a[k] == b[k]);
                }
                if last_authored(a, id, k) {
                    assert(k < n - 1) by {
                        if k == n - 1 {
                            assert(a[n - 1].id@ == id);
                        }
                    }
                    assert(a[k] == b[k]);
                    assert forall|j: int| k < j < b.len() implies (#[trigger] b[j]).id@ != id by {
                        assert(b[j] == a[j]);
                    }
                }
            }
            assert forall|k: int| #[trigger] last_authored(a, id, k) implies m.dom().contains(id)
                && m[id] == spec_view(ns[k], root) by {
                assert(last_authored(b, id, k));
            }
            if forall|k: int| !#[trigger] last_authored(a, id, k) {
                assert forall|k: int| !#[trigger] last_authored(b, id, k) by {
                    assert(!last_authored(a, id, k));
                }
            }
        }
    } else {
        assert forall|k: int| !#[trigger] last_authored(ns.take(n), id, k) by {}
    }
}

/// Every authored node is in the tree, in the form that the last one with its id gives it; the root is
/// there even where it is not authored; and without an overlay nothing else is.
pub proof fn authored_nodes_are_placed(cfg: Config, id: Seq<char>)
    ensures
        ({
            let m = cfg.placed_nodes(None);
            &&& forall|k: int| #[trigger]
                last_authored(cfg.nodes@, id, k) ==> m.dom().contains(id) && m[id] == spec_view(
                    cfg.nodes@[k],
                    cfg.root_id(),
                )
            &&& (forall|k: int| !#[trigger] last_authored(cfg.nodes@, id, k)) ==> (m.dom().contains(id)
                <==> id == cfg.root_id())
        }),
{
    let n = cfg.nodes@.len() as int;
    authored_on(cfg.nodes@, cfg.root_id(), id, n);
    assert(cfg.nodes@.take(n) =~= cfg.nodes@);
}

/// What an authored node stands for says what the node says: its parent, or the root where it names
/// none; its dependencies and anchors; its kind, an atom only where it says so; and its plane, that of
/// its path where it names none.
pub proof fn authored_nodes_say_what_they_say(s: NodeSpec, root: Seq<char>)
    ensures
        ({
            let v = spec_view(s, root);
            &&& v.parent == Some(
                if s.parent is Some {
                    s.parent->0@
                } else {
                    root
                },
            )
            &&& v.depends_on == crate::text::texts(s.depends_on@)
            &&& v.anchors == crate::text::texts(s.anchors@)
            &&& v.kind == Kind::Atom <==> s.kind is Some && s.kind->0@ == seq!['a', 't', 'o', 'm']
            &&& s.plane is None ==> v.plane == path_plane(s.id@)
            &&& s.plane is Some ==> (v.plane == Plane::Docs <==> s.plane->0@ == seq![
                'd',
                'o',
                'c',
                's',
            ])
        }),
{
    reveal_strlit("atom");
    reveal_strlit("docs");
    assert("atom"@ =~= seq!['a', 't', 'o', 'm']);
    assert("docs"@ =~= seq!['d', 'o', 'c', 's']);
}

proof fn leaves_out_on(ns: Seq<NodeSpec>, id: Seq<char>, n: int)
    requires
        0 <= n <= ns.len(),
        forall|j: int| n <= j < ns.len() ==> (#[trigger] ns[j]).id@ != id,
    ensures
        leaves_kind_out(ns, id, n) <==> exists|k: int| #[trigger]
            last_authored(ns, id, k) && ns[k].kind is None,
    decreases n,
{
    if n > 0 {
        if ns[n - 1].id@ == id {
            assert(last_authored(ns, id, n - 1));
            if exists|k: int| #[trigger] last_authored(ns, id, k) && ns[k].kind is None {
                let k = choose|k: int| #[trigger] last_authored(ns, id, k) && ns[k].kind is None;
                if k < n - 1 {
                    assert(ns[n - 1].id@ != id);
                } else if k > n - 1 {
                    assert(ns[k].id@ != id);
                }
            }
        } else {
            leaves_out_on(ns, id, n - 1);
        }
    } else if exists|k: int| #[trigger] last_authored(ns, id, k) && ns[k].kind is None {
        let k = choose|k: int| #[trigger] last_authored(ns, id, k) && ns[k].kind is None;
        assert(ns[k].id@ != id);
    }
}

/// A node whose kind is left out is a composite where some node names it as its parent, and an atom
/// where none does; other nodes keep their kinds; and nothing but the kind of a node is told.
pub proof fn kinds_are_told_by_children(m: Map<Seq<char>, NodeView>, ns: Seq<NodeSpec>, id: Seq<char>)
    requires
        m.dom().contains(id),
    ensures
        ({
            let left = exists|k: int| #[trigger] last_authored(ns, id, k) && ns[k].kind is None;
            let t = told(m, ns);
            &&& t.dom().contains(id)
            &&& left ==> (t[id].kind == Kind::Composite <==> exists|c: Seq<char>| #[trigger]
                m.dom().contains(c) && m[c].parent == Some(id))
            &&& !left ==> t[id].kind == m[id].kind
            &&& t[id].plane == m[id].plane
            &&& t[id].parent == m[id].parent
            &&& t[id].depends_on == m[id].depends_on
            &&& t[id].anchors == m[id].anchors
            &&& t[id].facets == m[id].facets
        }),
{
    leaves_out_on(ns, id, ns.len() as int);
    if has_children(m, id) {
        let c = choose|c: Seq<char>| #[trigger] m.dom().contains(c) && m[c].parent == Some(id);
        assert(m.dom().contains(c));
    }
}

// ── files of a walk ────────────────────────────────────────────────────────────────────

/// Whether an id is another one or above it: that other up to one of its slashes.
pub open spec fn at_or_above(x: Seq<char>, id: Seq<char>) -> bool {
    x == id || (x.len() < id.len() && x == id.take(x.len() as int) && id[x.len() as int] == '/')
}

proof fn last_slash(id: Seq<char>)
    ensures
        match rfind(id, "/"@) {
            Some(i) => 0 <= i < id.len() && id[i] == '/' && forall|j: int|
                i < j < id.len() ==> #[trigger] id[j] != '/',
            None => forall|j: int| 0 <= j < id.len() ==> #[trigger] id[j] != '/',
        },
{
    reveal_strlit("/");
    let n = id.len() as int;
    rfind_from_facts(id, "/"@, n - 1);
    assert forall|j: int| 0 <= j < n implies (id[j] == '/' <==> #[trigger] at(id, "/"@, j)) by {
        assert(id.subrange(j, j + 1)[0] == id[j]);
        if id[j] == '/' {
            assert(id.subrange(j, j + 1) =~= "/"@);
        }
    }
    if rfind(id, "/"@) is Some {
        let i = rfind(id, "/"@)->0;
        assert forall|j: int| i < j < n implies #[trigger] id[j] != '/' by {
            assert(!at(id, "/"@, j));
        }
    } else {
        assert forall|j: int| 0 <= j < n implies #[trigger] id[j] != '/' by {
            assert(!at(id, "/"@, j));
        }
    }
}

/// The home of a file is the nearest node at or above its directory: no node at or above it is longer;
/// and it is the root where there is none.
pub proof fn homes_are_nearest(ids: Set<Seq<char>>, root: Seq<char>, id: Seq<char>)
    ensures
        ({
            let home = nearest(ids, root, id);
            &&& (exists|x: Seq<char>| #[trigger] ids.contains(x) && at_or_above(x, id))
                ==> ids.contains(home) && at_or_above(home, id)
            &&& (forall|x: Seq<char>| #[trigger] ids.contains(x) ==> !at_or_above(x, id)) ==> home
                == root
            &&& forall|x: Seq<char>| #[trigger]
                ids.contains(x) && at_or_above(x, id) ==> x.len() <= home.len()
        }),
    decreases id.len(),
{
    last_slash(id);
    reveal_strlit("/");
    if !ids.contains(id) {
        match rfind(id, "/"@) {
            Some(i) => {
                let head = id.take(i);
                homes_are_nearest(ids, root, head);
                assert forall|x: Seq<char>| at_or_above(x, id) && x != id implies #[trigger] at_or_above(
                    x,
                    head,
                ) by {
                    let n = x.len() as int;
                    if n > i {
                        assert(id[n] != '/');
                    }
                    if n == i {
                        assert(x =~= head);
                    } else {
                        assert(head[n] == id[n]);
                        assert(head.take(n) =~= id.take(n));
                    }
                }
                assert forall|x: Seq<char>| #[trigger] at_or_above(x, head) implies at_or_above(x, id) by {
                    let n = x.len() as int;
                    if x == head {
                        assert(n == i);
                    } else {
                        assert(head[n] == id[n]);
                        assert(head.take(n) =~= id.take(n));
                    }
                }
                if exists|x: Seq<char>| #[trigger] ids.contains(x) && at_or_above(x, id) {
                    let x = choose|x: Seq<char>| #[trigger] ids.contains(x) && at_or_above(x, id);
                    assert(at_or_above(x, head));
                    assert(ids.contains(x));
                }
            },
            None => {
                assert forall|x: Seq<char>| #[trigger] ids.contains(x) implies !at_or_above(x, id) by {
                    if at_or_above(x, id) && x != id {
                        assert(id[x.len() as int] != '/');
                    }
                }
            },
        }
    }
}

proof fn overlay_on(m: Map<Seq<char>, NodeView>, root: Seq<char>, es: Seq<Entry>, n: int, i: int)
    requires
        0 <= n <= es.len(),
    ensures
        ({
            let all = overlaid(m, root, es, n);
            &&& forall|id: Seq<char>| #[trigger]
                m.dom().contains(id) ==> all.dom().contains(id) && all[id] == m[id]
            &&& 0 <= i < n && !es[i].is_dir ==> all.dom().contains(path_id(es[i].rel@)) && (
            !m.dom().contains(path_id(es[i].rel@)) ==> all[path_id(es[i].rel@)].kind == Kind::Atom
                && all[path_id(es[i].rel@)].depends_on.len() == 0)
        }),
        forall|id: Seq<char>| #[trigger]
            overlaid(m, root, es, n).dom().contains(id) && !m.dom().contains(id) ==> (exists|k: int|
                0 <= k < n && !(#[trigger] es[k]).is_dir && path_id(es[k].rel@) == id) && overlaid(
                m,
                root,
                es,
                n,
            )[id].kind == Kind::Atom && overlaid(m, root, es, n)[id].depends_on.len() == 0,
    decreases n,
{
    if n > 0 {
        overlay_on(m, root, es, n - 1, i);
        let prior = overlaid(m, root, es, n - 1);
        let all = overlaid(m, root, es, n);
        assert forall|id: Seq<char>| #[trigger]
            all.dom().contains(id) && !m.dom().contains(id) implies (exists|k: int|
            0 <= k < n && !(#[trigger] es[k]).is_dir && path_id(es[k].rel@) == id) && all[id].kind
            == Kind::Atom && all[id].depends_on.len() == 0 by {
            if prior.dom().contains(id) {
                let k = choose|k: int|
                    0 <= k < n - 1 && !(#[trigger] es[k]).is_dir && path_id(es[k].rel@) == id;
                assert(!es[k].is_dir);
            } else {
                assert(!es[n - 1].is_dir);
            }
        }
        if 0 <= i < n && !es[i].is_dir {
            let id = path_id(es[i].rel@);
            assert(all.dom().contains(id));
        }
    }
}

/// With an overlay every file of the walk has a node, the authored nodes stay as they are, and every
/// other node is an atom that stands for a file and depends on nothing.
pub proof fn every_file_has_a_node(cfg: Config, es: Vec<Entry>, id: Seq<char>, i: int)
    ensures
        ({
            let base = cfg.placed_nodes(None);
            let all = cfg.placed_nodes(Some(&es));
            &&& base.dom().contains(id) ==> all.dom().contains(id) && all[id] == base[id]
            &&& 0 <= i < es@.len() && !es@[i].is_dir ==> all.dom().contains(path_id(es@[i].rel@))
            &&& all.dom().contains(id) && !base.dom().contains(id) ==> (exists|k: int|
                0 <= k < es@.len() && !(#[trigger] es@[k]).is_dir && path_id(es@[k].rel@) == id)
                && all[id].kind == Kind::Atom && all[id].depends_on.len() == 0
        }),
{
    let n = es@.len() as int;
    overlay_on(cfg.placed_nodes(None), cfg.root_id(), es@, n, i);
}

// ── languages ──────────────────────────────────────────────────────────────────────────

/// The language of a file goes by its extension.
pub proof fn languages_go_by_extension(rel: Seq<char>, ext: Seq<char>)
    requires
        extension_of(rel) == Some(ext),
    ensures
        language_of(rel) == Some("rust"@) <== ext == seq!['r', 's'],
        language_of(rel) == Some("python"@) <== ext == seq!['p', 'y'],
        language_of(rel) == Some("markdown"@) <== ext == seq!['m', 'd'],
        language_of(rel) == Some("toml"@) <== ext == seq!['t', 'o', 'm', 'l'],
        language_of(rel) == Some("c"@) <== ext == seq!['c'] || ext == seq!['h'],
        language_of(rel) == Some("cpp"@) <== ext == seq!['c', 'p', 'p'] || ext == seq!['h', 'p', 'p']
            || ext == seq!['c', 'c'],
        language_of(rel) is None <== ext != seq!['r', 's'] && ext != seq!['p', 'y'] && ext != seq![
            'm',
            'd',
        ] && ext != seq!['t', 'o', 'm', 'l'] && ext != seq!['c'] && ext != seq!['h'] && ext != seq![
            'c',
            'p',
            'p',
        ] && ext != seq!['h', 'p', 'p'] && ext != seq!['c', 'c'],
{
    reveal_strlit("rs");
    reveal_strlit("py");
    reveal_strlit("md");
    reveal_strlit("toml");
    reveal_strlit("c");
    reveal_strlit("h");
    reveal_strlit("cpp");
    reveal_strlit("hpp");
    reveal_strlit("cc");
    assert("rs"@ =~= seq!['r', 's']);
    assert("py"@ =~= seq!['p', 'y']);
    assert("md"@ =~= seq!['m', 'd']);
    assert("toml"@ =~= seq!['t', 'o', 'm', 'l']);
    assert("c"@ =~= seq!['c']);
    assert("h"@ =~= seq!['h']);
    assert("cpp"@ =~= seq!['c', 'p', 'p']);
    assert("hpp"@ =~= seq!['h', 'p', 'p']);
    assert("cc"@ =~= seq!['c', 'c']);
    assert(seq!['r', 's'][0] == 'r' && seq!['p', 'y'][0] == 'p' && seq!['m', 'd'][0] == 'm');
    assert(seq!['c', 'p', 'p'][1] == 'p' && seq!['h', 'p', 'p'][0] == 'h' && seq!['c', 'c'][0] == 'c');
    assert(seq!['c'][0] == 'c' && seq!['h'][0] == 'h' && seq!['c', 'p', 'p'][0] == 'c');
}

/// How many files are of a language.
pub open spec fn files_of(files: Seq<Seq<char>>, lang: Seq<char>) -> nat {
    files.filter(|f: Seq<char>| language_of(f) == Some(lang)).len()
}

proof fn counts_are(files: Seq<Seq<char>>, lang: Seq<char>, n: int)
    requires
        0 <= n <= files.len(),
    ensures
        language_count(files, lang, n) == files_of(files.take(n), lang),
    decreases n,
{
    reveal(Seq::filter);
    if n > 0 {
        counts_are(files, lang, n - 1);
        let t = files.take(n);
        assert(t.drop_last() =~= files.take(n - 1));
        assert(t.last() == files[n - 1]);
    }
}

proof fn leading_on(files: Seq<Seq<char>>, n: int, k: int)
    requires
        0 <= n <= languages().len(),
        0 <= k < n,
    ensures
        match leading_language(files, n) {
            Some(l) => files_of(files, languages()[k]) <= files_of(files, l) && files_of(files, l) > 0
                && languages().contains(l),
            None => files_of(files, languages()[k]) == 0,
        },
    decreases n,
{
    let all = files.len() as int;
    assert(files.take(all) =~= files);
    let lang = languages()[n - 1];
    counts_are(files, lang, all);
    let prior = leading_language(files, n - 1);
    if prior is Some {
        counts_are(files, prior->0, all);
    }
    assert(languages().contains(lang));
    if k < n - 1 {
        leading_on(files, n - 1, k);
    } else if n > 1 {
        leading_on(files, n - 1, 0);
    }
}

/// The language of a directory is one that no other known language has more files of, and there is
/// none only where no file is of a known language.
pub proof fn most_files_tell_the_language(files: Seq<Seq<char>>, k: int)
    requires
        0 <= k < languages().len(),
    ensures
        match dominant(files) {
            Some(l) => files_of(files, languages()[k]) <= files_of(files, l) && files_of(files, l) > 0
                && languages().contains(l),
            None => files_of(files, languages()[k]) == 0,
        },
{
    leading_on(files, languages().len() as int, k);
}

// ── paths ──────────────────────────────────────────────────────────────────────────────

/// The names that are skipped are those of either list.
pub proof fn all_names_are_skipped(
    base: Seq<Seq<char>>,
    extra: Seq<Seq<char>>,
    n: int,
    x: Seq<char>,
)
    requires
        0 <= n <= extra.len(),
    ensures
        skip_with(base, extra, n).contains(x) <==> base.contains(x) || extra.take(n).contains(x),
    decreases n,
{
    if n > 0 {
        all_names_are_skipped(base, extra, n - 1, x);
        let s = skip_with(base, extra, n - 1);
        let last = extra[n - 1];
        crate::order::pushed_contains(s, last, x);
        assert(extra.take(n) =~= extra.take(n - 1).push(last));
        crate::order::pushed_contains(extra.take(n - 1), last, x);
    } else {
        assert(extra.take(0).len() == 0);
    }
}

/// A path is documentation if and only if one of its components is `docs`.
pub proof fn documentation_is_below_docs(rel: Seq<char>)
    ensures
        path_plane(rel) == Plane::Docs <==> crate::paths::components_of(rel).contains(
            seq!['d', 'o', 'c', 's'],
        ),
{
    reveal_strlit("docs");
    assert("docs"@ =~= seq!['d', 'o', 'c', 's']);
}

} // verus!
