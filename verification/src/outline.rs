//! The tree as it is shown: every node below its parent, with the number of files that it holds,
//! and the sizes of subtrees.
use vstd::prelude::*;

use crate::model::{Kind, Node, NodeId, Plane};
use crate::moves::{add_capped, capped};
use crate::order::{in_order, named, value_of, Table};
use crate::text::{
    cat2, cat3, cat4, cat7, chars, dec, decimal_usize, gather, join, joined, put, put_all, rcut,
    rsplit_once, texts,
};
use crate::tree::{Measure, Tree};

verus! {

/// The last part of an id.
pub open spec fn leaf(id: Seq<char>) -> Seq<char> {
    match rcut(id, "/"@) {
        Some((_, n)) => n,
        None => id,
    }
}

/// The last part of an id.
pub fn leaf_name(id: &str) -> (r: String)
    ensures
        r@ == leaf(id@),
{
    match rsplit_once(id, "/") {
        Some((_dir, n)) => n,
        None => id.to_owned(),
    }
}

/// What is said of a node beside its name: that it is documentation, and its language.
pub open spec fn tags(n: Node) -> Seq<Seq<char>> {
    (if n.plane == Plane::Docs {
        seq!["docs"@]
    } else {
        seq![]
    }) + (match value_of(n.facets@, "language"@) {
        Some(l) => seq![l@],
        None => seq![],
    })
}

/// What is said of a node beside its name, as it is shown.
pub open spec fn tag(n: Node) -> Seq<char> {
    if tags(n).len() == 0 {
        ""@
    } else {
        "  ["@ + joined(tags(n), " "@) + "]"@
    }
}

/// What is said of a node beside its name.
pub fn facet_tag(node: &Node) -> (r: String)
    ensures
        r@ == tag(*node),
{
    let mut bits: Vec<String> = Vec::new();
    if node.plane == Plane::Docs {
        put(&mut bits, "docs".to_owned());
    }
    if let Some(l) = node.facets.get("language") {
        put(&mut bits, l.clone());
    }
    assert(texts(bits@) =~= tags(*node));
    assert(texts(bits@).len() == bits@.len());
    if bits.len() == 0 {
        "".to_owned()
    } else {
        cat3("  [", join(&bits, " ").as_str(), "]")
    }
}

/// How many files each node on the way down from the root holds.
pub fn file_counts(tree: &Tree) -> (r: Table<usize, false>)
    requires
        tree.foldable(),
    ensures
        tree.measures(Measure::Atoms, r@),
        forall|id: Seq<char>| #[trigger] named(r@, id) <==> tree.within(id),
{
    tree.measure(Measure::Atoms)
}

/// The number that a table gives to an id; 0 where it gives none.
pub open spec fn number_of(rows: Seq<(Seq<char>, usize)>, id: Seq<char>) -> usize {
    match value_of(rows, id) {
        Some(n) => n,
        None => 0,
    }
}

fn get_number(rows: &Table<usize, false>, id: &str) -> (r: usize)
    ensures
        r == number_of(rows@, id@),
{
    match rows.get(id) {
        Some(n) => *n,
        None => 0,
    }
}

// ── the tree ───────────────────────────────────────────────────────────────────────────

/// Whether every child that a node lists is a node.
pub open spec fn complete(t: Tree) -> bool {
    forall|id: Seq<char>, k: int|
        named(t.nodes@, id) && 0 <= k < value_of(t.nodes@, id)->0.children@.len() ==> named(
            t.nodes@,
            #[trigger] value_of(t.nodes@, id)->0.children@[k]@,
        )
}

/// The child of a node at a position, where it is shown: composites are, atoms where files are
/// asked for.
pub open spec fn shown_kid(t: Tree, n: Node, files: bool) -> spec_fn(int) -> Seq<Seq<char>> {
    |k: int|
        if files || !(named(t.nodes@, n.children@[k]@) && value_of(
            t.nodes@,
            n.children@[k]@,
        )->0.kind == Kind::Atom) {
            seq![n.children@[k]@]
        } else {
            seq![]
        }
}

/// The children of a node that are shown.
pub open spec fn shown_kids(t: Tree, n: Node, files: bool) -> Seq<Seq<char>> {
    gather(n.children@.len() as int, shown_kid(t, n, files))
}

/// The line for a node, the last of its siblings or not.
pub open spec fn node_line(
    n: Node,
    id: Seq<char>,
    prefix: Seq<char>,
    count: nat,
    last: bool,
    collapsed: bool,
) -> Seq<char> {
    let branch = if last {
        "└─ "@
    } else {
        "├─ "@
    };
    match n.kind {
        Kind::Atom => prefix + branch + leaf(id) + tag(n),
        Kind::Composite => prefix + branch + "▸ "@ + leaf(id) + "  ("@ + dec(count) + " files)"@
            + tag(n) + (if collapsed && count > 0 {
            " …"@
        } else {
            ""@
        }),
    }
}

/// What stands before the lines below a node.
pub open spec fn inner_prefix(prefix: Seq<char>, last: bool) -> Seq<char> {
    prefix + (if last {
        "   "@
    } else {
        "│  "@
    })
}

/// One level less, where there is a limit.
pub open spec fn one_less(left: Option<usize>) -> Option<usize> {
    match left {
        Some(l) => if l == 0 {
            Some(0)
        } else {
            Some((l - 1) as usize)
        },
        None => None,
    }
}

/// The lines below a node, where `left` more levels are opened and the ways down have fewer than
/// `n` steps.
pub open spec fn lines_below(
    t: Tree,
    rows: Seq<(Seq<char>, usize)>,
    files: bool,
    id: Seq<char>,
    prefix: Seq<char>,
    left: Option<usize>,
    n: nat,
) -> Seq<Seq<char>>
    decreases n, 0int,
{
    if n == 0 || !named(t.nodes@, id) {
        seq![]
    } else {
        let ks = shown_kids(t, value_of(t.nodes@, id)->0, files);
        lines_upto(t, rows, files, ks, prefix, left, (n - 1) as nat, ks.len() as int)
    }
}

/// The lines for the first `k` of some siblings and for what is below them.
pub open spec fn lines_upto(
    t: Tree,
    rows: Seq<(Seq<char>, usize)>,
    files: bool,
    ks: Seq<Seq<char>>,
    prefix: Seq<char>,
    left: Option<usize>,
    n: nat,
    k: int,
) -> Seq<Seq<char>>
    decreases n, k,
{
    if k <= 0 {
        seq![]
    } else {
        let id = ks[k - 1];
        let node = value_of(t.nodes@, id)->0;
        let last = k == ks.len();
        let collapsed = left == Some(0usize);
        lines_upto(t, rows, files, ks, prefix, left, n, k - 1) + seq![
            node_line(node, id, prefix, number_of(rows, id) as nat, last, collapsed),
        ] + (if node.kind == Kind::Composite && !collapsed {
            lines_below(t, rows, files, id, inner_prefix(prefix, last), one_less(left), n)
        } else {
            seq![]
        })
    }
}

fn list_shown(t: &Tree, node: &Node, files: bool) -> (r: Vec<String>)
    ensures
        texts(r@) == shown_kids(*t, *node, files),
{
    let mut r: Vec<String> = Vec::new();
    let mut k: usize = 0;
    while k < node.children.len()
        invariant
            k <= node.children.len(),
            texts(r@) =~= gather(k as int, shown_kid(*t, *node, files)),
        decreases node.children.len() - k,
    {
        let atom = match t.nodes.get(node.children[k].as_str()) {
            Some(c) => c.kind == Kind::Atom,
            None => false,
        };
        if files || !atom {
            put(&mut r, node.children[k].clone());
        }
        k += 1;
    }
    r
}

proof fn shown_is_child(t: Tree, node: Node, files: bool, i: int) -> (k: int)
    requires
        0 <= i < shown_kids(t, node, files).len(),
    ensures
        0 <= k < node.children@.len(),
        node.children@[k]@ == shown_kids(t, node, files)[i],
{
    let ks = shown_kids(t, node, files);
    let x = ks[i];
    assert(ks.contains(x));
    crate::text::gather_contains(node.children@.len() as int, shown_kid(t, node, files), x);
    let k = choose|k: int|
        0 <= k < node.children@.len() && (#[trigger] (shown_kid(t, node, files))(k)).contains(x);
    let one = (shown_kid(t, node, files))(k);
    let j = choose|j: int| 0 <= j < one.len() && one[j] == x;
    k
}

fn write_line(
    node: &Node,
    id: &str,
    prefix: &str,
    count: usize,
    last: bool,
    collapsed: bool,
) -> (r: String)
    ensures
        r@ == node_line(*node, id@, prefix@, count as nat, last, collapsed),
{
    let branch = if last {
        "└─ "
    } else {
        "├─ "
    };
    match node.kind {
        Kind::Atom => cat4(prefix, branch, leaf_name(id).as_str(), facet_tag(node).as_str()),
        Kind::Composite => {
            let mut t = cat7(
                prefix,
                branch,
                "▸ ",
                leaf_name(id).as_str(),
                "  (",
                decimal_usize(count).as_str(),
                " files)",
            );
            t.append(facet_tag(node).as_str());
            t.append(
                if collapsed && count > 0 {
                    " …"
                } else {
                    ""
                },
            );
            t
        },
    }
}

fn render_children(
    t: &Tree,
    rows: &Table<usize, false>,
    files: bool,
    id: &str,
    prefix: &str,
    left: Option<usize>,
    Ghost(n): Ghost<nat>,
) -> (r: Vec<String>)
    requires
        complete(*t),
        t.shallow(id@, n),
    ensures
        texts(r@) == lines_below(*t, rows@, files, id@, prefix@, left, n),
    decreases n,
{
    let mut out: Vec<String> = Vec::new();
    let node = match t.nodes.get(id) {
        Some(node) => node,
        None => {
            assert(texts(out@) =~= lines_below(*t, rows@, files, id@, prefix@, left, n));
            return out;
        },
    };
    let ks = list_shown(t, node, files);
    let ghost all = texts(ks@);
    let ghost m = (n - 1) as nat;
    let collapsed = match left {
        Some(l) => l == 0,
        None => false,
    };
    let mut i: usize = 0;
    assert(texts(out@) =~= lines_upto(*t, rows@, files, all, prefix@, left, m, 0));
    while i < ks.len()
        invariant
            i <= ks.len(),
            n > 0,
            m == n - 1,
            complete(*t),
            t.shallow(id@, n),
            named(t.nodes@, id@),
            value_of(t.nodes@, id@) == Some(*node),
            all == texts(ks@),
            all == shown_kids(*t, *node, files),
            collapsed == (left == Some(0usize)),
            texts(out@) == lines_upto(*t, rows@, files, all, prefix@, left, m, i as int),
        decreases ks.len() - i,
    {
        let c = &ks[i];
        let last = i + 1 == ks.len();
        proof {
            assert(all[i as int] == c@);
            let k = shown_is_child(*t, *node, files, i as int);
            assert(node.children@[k]@ == c@);
            assert(value_of(t.nodes@, id@)->0.children@[k]@ == c@);
            assert(named(t.nodes@, c@));
            assert(t.shallow(node.children@[k]@, m));
        }
        if let Some(child) = t.nodes.get(c.as_str()) {
            put(
                &mut out,
                write_line(
                    child,
                    c.as_str(),
                    prefix,
                    get_number(rows, c.as_str()),
                    last,
                    collapsed,
                ),
            );
            let ghost so_far = texts(out@);
            if child.kind == Kind::Composite && !collapsed {
                let inner = cat2(
                    prefix,
                    if last {
                        "   "
                    } else {
                        "│  "
                    },
                );
                let less = match left {
                    Some(l) => if l == 0 {
                        Some(0)
                    } else {
                        Some(l - 1)
                    },
                    None => None,
                };
                let below = render_children(t, rows, files, c.as_str(), inner.as_str(), less, Ghost(m));
                put_all(&mut out, &below);
            }
            assert(texts(out@) =~= lines_upto(
                *t,
                rows@,
                files,
                all,
                prefix@,
                left,
                m,
                i + 1,
            ));
        }
        i += 1;
    }
    assert(all.len() == ks@.len());
    out
}

/// More room changes nothing once every way down has come to its end.
proof fn settled(
    t: Tree,
    rows: Seq<(Seq<char>, usize)>,
    files: bool,
    id: Seq<char>,
    prefix: Seq<char>,
    left: Option<usize>,
    n: nat,
    m: nat,
)
    requires
        t.shallow(id, n),
        n <= m,
    ensures
        lines_below(t, rows, files, id, prefix, left, n) == lines_below(
            t,
            rows,
            files,
            id,
            prefix,
            left,
            m,
        ),
    decreases n, 0int,
{
    if named(t.nodes@, id) {
        let node = value_of(t.nodes@, id)->0;
        let ks = shown_kids(t, node, files);
        assert forall|i: int| 0 <= i < ks.len() implies t.shallow(#[trigger] ks[i], (n - 1) as nat) by {
            let k = shown_is_child(t, node, files, i);
            assert(t.shallow(node.children@[k]@, (n - 1) as nat));
        }
        settled_upto(
            t,
            rows,
            files,
            ks,
            prefix,
            left,
            (n - 1) as nat,
            (m - 1) as nat,
            ks.len() as int,
        );
    }
}

proof fn settled_upto(
    t: Tree,
    rows: Seq<(Seq<char>, usize)>,
    files: bool,
    ks: Seq<Seq<char>>,
    prefix: Seq<char>,
    left: Option<usize>,
    n: nat,
    m: nat,
    k: int,
)
    requires
        0 <= k <= ks.len(),
        forall|i: int| 0 <= i < ks.len() ==> t.shallow(#[trigger] ks[i], n),
        n <= m,
    ensures
        lines_upto(t, rows, files, ks, prefix, left, n, k) == lines_upto(
            t,
            rows,
            files,
            ks,
            prefix,
            left,
            m,
            k,
        ),
    decreases n, k,
{
    if k > 0 {
        settled_upto(t, rows, files, ks, prefix, left, n, m, k - 1);
        settled(
            t,
            rows,
            files,
            ks[k - 1],
            inner_prefix(prefix, k == ks.len()),
            one_less(left),
            n,
            m,
        );
    }
}

/// The lines that show a tree, where its root has `n` or fewer steps below it: the root, and all
/// that is below it down to a depth.
pub open spec fn tree_lines_of(
    t: Tree,
    rows: Seq<(Seq<char>, usize)>,
    files: bool,
    depth: Option<usize>,
    n: nat,
) -> Seq<Seq<char>> {
    seq![
        "▸ "@ + leaf(t.root@) + "  ("@ + dec(number_of(rows, t.root@) as nat) + " files)"@,
    ] + lines_below(t, rows, files, t.root@, ""@, one_less(depth), n)
}

/// Whether every child that a node lists is a node.
pub fn is_complete(tree: &Tree) -> (r: bool)
    ensures
        r == complete(*tree),
{
    let total = tree.nodes.len();
    let mut i: usize = 0;
    while i < total
        invariant
            i <= total == tree.nodes@.len(),
            in_order(false, tree.nodes@),
            forall|j: int, k: int|
                0 <= j < i && 0 <= k < tree.nodes@[j].1.children@.len() ==> named(
                    tree.nodes@,
                    #[trigger] tree.nodes@[j].1.children@[k]@,
                ),
        decreases total - i,
    {
        let node = tree.nodes.value(i);
        let name = tree.nodes.name(i);
        proof {
            crate::order::row_unique(false, tree.nodes@, i as int);
        }
        let mut k: usize = 0;
        while k < node.children.len()
            invariant
                k <= node.children.len(),
                i < total == tree.nodes@.len(),
                *node == tree.nodes@[i as int].1,
                name@ == tree.nodes@[i as int].0,
                named(tree.nodes@, name@),
                value_of(tree.nodes@, name@) == Some(*node),
                forall|j: int|
                    0 <= j < k ==> named(tree.nodes@, #[trigger] node.children@[j]@),
            decreases node.children.len() - k,
        {
            if !tree.nodes.contains(node.children[k].as_str()) {
                assert(!named(
                    tree.nodes@,
                    value_of(tree.nodes@, name@)->0.children@[k as int]@,
                ));
                return false;
            }
            k += 1;
        }
        i += 1;
    }
    assert forall|id: Seq<char>, k: int|
        named(tree.nodes@, id) && 0 <= k < value_of(
            tree.nodes@,
            id,
        )->0.children@.len() implies named(
        tree.nodes@,
        #[trigger] value_of(tree.nodes@, id)->0.children@[k]@,
    ) by {
        let j = crate::order::row_of(tree.nodes@, id)->0;
        assert(value_of(tree.nodes@, id)->0 == tree.nodes@[j].1);
        assert(named(tree.nodes@, tree.nodes@[j].1.children@[k]@));
    }
    true
}

/// The lines that show a tree: composites with the number of files that they hold, files where
/// they are asked for, and nothing below a depth.
pub fn tree_lines(tree: &Tree, files: bool, depth: Option<usize>) -> (r: Vec<String>)
    requires
        tree.foldable(),
        complete(*tree),
    ensures
        exists|rows: Seq<(Seq<char>, usize)>|
            {
                &&& #[trigger] tree.measures(Measure::Atoms, rows)
                &&& forall|id: Seq<char>| #[trigger] named(rows, id) <==> tree.within(id)
                &&& forall|n: nat| #[trigger]
                    tree.shallow(tree.root@, n) ==> texts(r@) == tree_lines_of(
                        *tree,
                        rows,
                        files,
                        depth,
                        n,
                    )
            },
{
    let rows = file_counts(tree);
    let root = tree.root.as_str();
    let ghost n = choose|n: nat| tree.shallow(tree.root@, n);
    let mut out: Vec<String> = Vec::new();
    put(
        &mut out,
        root_line(leaf_name(root).as_str(), get_number(&rows, root)),
    );
    let less = match depth {
        Some(l) => if l == 0 {
            Some(0)
        } else {
            Some(l - 1)
        },
        None => None,
    };
    let below = render_children(tree, &rows, files, root, "", less, Ghost(n));
    put_all(&mut out, &below);
    proof {
        assert(texts(out@) =~= tree_lines_of(*tree, rows@, files, depth, n));
        assert forall|k: nat| #[trigger] tree.shallow(tree.root@, k) implies texts(out@)
            == tree_lines_of(*tree, rows@, files, depth, k) by {
            if k <= n {
                settled(*tree, rows@, files, tree.root@, ""@, one_less(depth), k, n);
            } else {
                settled(*tree, rows@, files, tree.root@, ""@, one_less(depth), n, k);
            }
        }
    }
    out
}

fn root_line(name: &str, count: usize) -> (r: String)
    ensures
        r@ == "▸ "@ + name@ + "  ("@ + dec(count as nat) + " files)"@,
{
    let head = cat3("▸ ", name, "  (");
    cat3(head.as_str(), decimal_usize(count).as_str(), " files)")
}

// ── the sizes of subtrees ──────────────────────────────────────────────────────────────

/// The atoms below a node, itself where it is one; what is listed last comes first. The ways down
/// have fewer than `n` steps.
pub open spec fn atoms_below(t: Tree, id: Seq<char>, n: nat) -> Seq<Seq<char>>
    decreases n, 0int,
{
    if n == 0 || !named(t.nodes@, id) {
        seq![]
    } else {
        let node = value_of(t.nodes@, id)->0;
        if node.kind == Kind::Atom {
            seq![id]
        } else {
            atoms_from(t, texts(node.children@), (n - 1) as nat, 0)
        }
    }
}

/// The atoms below all but the first `k` of some nodes, what is listed last first.
pub open spec fn atoms_from(t: Tree, ids: Seq<Seq<char>>, n: nat, k: int) -> Seq<Seq<char>>
    decreases n, ids.len() - k,
{
    if k < 0 || k >= ids.len() {
        seq![]
    } else {
        atoms_from(t, ids, n, k + 1) + atoms_below(t, ids[k], n)
    }
}

fn list_atoms(t: &Tree, id: &str, Ghost(n): Ghost<nat>) -> (r: Vec<String>)
    requires
        t.shallow(id@, n),
    ensures
        texts(r@) == atoms_below(*t, id@, n),
    decreases n,
{
    let mut out: Vec<String> = Vec::new();
    if let Some(node) = t.nodes.get(id) {
        if node.kind == Kind::Atom {
            put(&mut out, id.to_owned());
        } else {
            let ghost ids = texts(node.children@);
            let ghost m = (n - 1) as nat;
            let mut k: usize = node.children.len();
            assert(ids.len() == k);
            while k > 0
                invariant
                    k <= node.children.len(),
                    n > 0,
                    m == n - 1,
                    t.shallow(id@, n),
                    value_of(t.nodes@, id@) == Some(*node),
                    ids == texts(node.children@),
                    texts(out@) =~= atoms_from(*t, ids, m, k as int),
                decreases k,
            {
                k -= 1;
                assert(ids[k as int] == node.children@[k as int]@);
                assert(t.shallow(node.children@[k as int]@, m));
                let more = list_atoms(t, node.children[k].as_str(), Ghost(m));
                put_all(&mut out, &more);
            }
        }
    }
    assert(texts(out@) =~= atoms_below(*t, id@, n));
    out
}

proof fn atoms_settled(t: Tree, id: Seq<char>, n: nat, m: nat)
    requires
        t.shallow(id, n),
        n <= m,
    ensures
        atoms_below(t, id, n) == atoms_below(t, id, m),
    decreases n, 0int,
{
    if named(t.nodes@, id) {
        let node = value_of(t.nodes@, id)->0;
        let ids = texts(node.children@);
        assert forall|i: int| 0 <= i < ids.len() implies t.shallow(#[trigger] ids[i], (n - 1) as nat) by {
            assert(t.shallow(node.children@[i]@, (n - 1) as nat));
        }
        atoms_settled_from(t, ids, (n - 1) as nat, (m - 1) as nat, 0);
    }
}

proof fn atoms_settled_from(t: Tree, ids: Seq<Seq<char>>, n: nat, m: nat, k: int)
    requires
        0 <= k,
        forall|i: int| 0 <= i < ids.len() ==> t.shallow(#[trigger] ids[i], n),
        n <= m,
    ensures
        atoms_from(t, ids, n, k) == atoms_from(t, ids, m, k),
    decreases n, ids.len() - k,
{
    if k < ids.len() {
        atoms_settled_from(t, ids, n, m, k + 1);
        atoms_settled(t, ids[k], n, m);
    }
}

/// The atoms below a node.
pub fn descendant_atoms(tree: &Tree, id: &str) -> (r: Vec<NodeId>)
    requires
        exists|n: nat| tree.shallow(id@, n),
    ensures
        forall|n: nat| #[trigger]
            tree.shallow(id@, n) ==> texts(r@) == atoms_below(*tree, id@, n),
{
    let ghost n = choose|n: nat| tree.shallow(id@, n);
    let r = list_atoms(tree, id, Ghost(n));
    proof {
        assert forall|k: nat| #[trigger] tree.shallow(id@, k) implies texts(r@) == atoms_below(
            *tree,
            id@,
            k,
        ) by {
            if k <= n {
                atoms_settled(*tree, id@, k, n);
            } else {
                atoms_settled(*tree, id@, n, k);
            }
        }
    }
    r
}

/// The sum of the numbers that a table gives to the first `n` of some ids, as far as it can be
/// counted.
pub open spec fn total_upto(rows: Seq<(Seq<char>, usize)>, ids: Seq<Seq<char>>, n: int) -> int
    decreases n,
{
    if n <= 0 {
        0
    } else {
        capped(total_upto(rows, ids, n - 1) + number_of(rows, ids[n - 1]))
    }
}

/// How many lines some files have together, where a table gives the lines of each.
pub fn total_lines(loc: &Table<usize, false>, ids: &Vec<NodeId>) -> (r: usize)
    ensures
        r == total_upto(loc@, texts(ids@), ids@.len() as int),
{
    let ghost all = texts(ids@);
    let mut n: usize = 0;
    let mut i: usize = 0;
    while i < ids.len()
        invariant
            i <= ids.len(),
            all == texts(ids@),
            n == total_upto(loc@, all, i as int),
        decreases ids.len() - i,
    {
        assert(all[i as int] == ids@[i as int]@);
        n = add_capped(n, get_number(loc, ids[i].as_str()));
        i += 1;
    }
    n
}

/// `s` with spaces before it, at least `width` characters in all.
pub open spec fn padded(s: Seq<char>, width: int) -> Seq<char>
    decreases width - s.len(),
{
    if s.len() >= width {
        s
    } else {
        padded(seq![' '] + s, width)
    }
}

/// Puts spaces before a text until it is as wide as asked for.
pub fn pad(s: &str, width: usize) -> (r: String)
    ensures
        r@ == padded(s@, width as int),
    decreases width - s@.len(),
{
    if chars(s).len() >= width {
        s.to_owned()
    } else {
        proof {
            reveal_strlit(" ");
        }
        let t = cat2(" ", s);
        assert(t@ =~= seq![' '] + s@);
        pad(t.as_str(), width)
    }
}

/// The line on a subtree: its share of the complexity, which is given, its files, its lines and
/// its id.
pub fn stat_line(share: &str, files: usize, lines: usize, id: &str) -> (r: String)
    ensures
        r@ == "  "@ + padded(share@, 5) + "%  "@ + padded(dec(files as nat), 6) + "  "@ + padded(
            dec(lines as nat),
            5,
        ) + "   "@ + id@,
{
    let head = cat4(
        "  ",
        pad(share, 5).as_str(),
        "%  ",
        pad(decimal_usize(files).as_str(), 6).as_str(),
    );
    let mid = cat3(head.as_str(), "  ", pad(decimal_usize(lines).as_str(), 5).as_str());
    cat3(mid.as_str(), "   ", id)
}

} // verus!
