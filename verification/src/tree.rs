//! The containment tree with its dependency graph: the check of its invariants, and the fold.
use vstd::prelude::*;

use crate::graph::{
    closes, cyclic, edge, find_cycle, first_closing, first_leading, leads, walk, well_formed,
};
use crate::model::{Kind, Node, NodeId};
use crate::order::{in_order, named, row_of, row_unique, same_but, value_of, Names, Table};
use crate::text::{
    cat2, cat3, cat4, gather, gather_contains, gather_empty, holds, join, joined, put, put_all,
    same, text_opt, texts,
};

verus! {

/// Nodes by id, and the id of the root. Code and documentation live in one tree.
pub struct Tree {
    pub nodes: Table<Node, false>,
    pub root: NodeId,
}

/// Whether `x` is one of the first `i` names.
pub open spec fn listed_before(v: Seq<Seq<char>>, i: int, x: Seq<char>) -> bool {
    exists|j: int| 0 <= j < i && #[trigger] v[j] == x
}

/// Where the way up from a node leads.
#[derive(Clone, Copy, Debug, PartialEq, Eq, Structural)]
enum Climb {
    /// It arrives at the root.
    Root,
    /// It ends at an id without a parent.
    Lost,
    /// It goes round without end.
    Round,
}

impl Tree {
    // ── what the tree says ─────────────────────────────────────────────────────────────

    /// Every node stands under its own id.
    pub open spec fn keyed(self) -> bool {
        forall|i: int| 0 <= i < self.nodes@.len() ==> (#[trigger] self.nodes@[i]).1.id@ == self.nodes@[i].0
    }

    /// The id found after going up `k` times from `id`.
    pub open spec fn up(self, id: Seq<char>, k: nat) -> Option<Seq<char>>
        decreases k,
    {
        if k == 0 {
            Some(id)
        } else {
            match self.up(id, (k - 1) as nat) {
                Some(x) => match value_of(self.nodes@, x) {
                    Some(n) => text_opt(n.parent),
                    None => None,
                },
                None => None,
            }
        }
    }

    /// Whether the way up from `id` arrives at the root.
    pub open spec fn rooted(self, id: Seq<char>) -> bool {
        exists|k: nat| #[trigger] self.up(id, k) == Some(self.root@)
    }

    /// Whether the way up from `id` ends.
    pub open spec fn lost(self, id: Seq<char>) -> bool {
        exists|k: nat| (#[trigger] self.up(id, k)) is None
    }

    /// Whether the node `a` uses the node `b`.
    pub open spec fn depends(self, a: Seq<char>, b: Seq<char>) -> bool {
        named(self.nodes@, b) && match value_of(self.nodes@, a) {
            Some(n) => texts(n.depends_on@).contains(b),
            None => false,
        }
    }

    /// Whether `p` is a chain of nodes, each of which uses the next.
    pub open spec fn dep_walk(self, p: Seq<Seq<char>>) -> bool {
        &&& p.len() >= 1
        &&& forall|i: int| 0 <= i < p.len() ==> named(self.nodes@, #[trigger] p[i])
        &&& forall|i: int| 0 <= i < p.len() - 1 ==> self.depends(#[trigger] p[i], p[i + 1])
    }

    /// Whether some chain of dependencies comes back to where it began.
    pub open spec fn dep_cyclic(self) -> bool {
        exists|p: Seq<Seq<char>>| #[trigger]
            self.dep_walk(p) && p.len() >= 2 && p[0] == p.last()
    }

    /// Whether `p` is a chain of dependencies whose last node occurred before on it.
    pub open spec fn dep_closes(self, p: Seq<Seq<char>>) -> bool {
        self.dep_walk(p) && exists|i: int| 0 <= i < p.len() - 1 && #[trigger] p[i] == p.last()
    }

    /// Whether some chain of dependencies from `id` closes.
    pub open spec fn dep_leads(self, id: Seq<char>) -> bool {
        exists|p: Seq<Seq<char>>| #[trigger] self.dep_closes(p) && p[0] == id
    }

    /// What a node depends on, as it is listed.
    pub open spec fn deps_of(self, id: Seq<char>) -> Seq<Seq<char>> {
        match value_of(self.nodes@, id) {
            Some(n) => texts(n.depends_on@),
            None => seq![],
        }
    }

    /// Whether `b` is the first that `a` depends on from which a chain of dependencies closes.
    pub open spec fn first_dep(self, a: Seq<char>, b: Seq<char>) -> bool {
        exists|k: int|
            0 <= k < self.deps_of(a).len() && #[trigger] self.deps_of(a)[k] == b && self.dep_leads(b)
                && forall|j: int|
                0 <= j < k ==> !self.dep_leads(#[trigger] self.deps_of(a)[j])
    }

    /// Whether `p` is the chain of dependencies that is shown: it begins at the first node from
    /// which one closes, goes on to the first dependency from which one does, and ends where it
    /// comes to a node again.
    pub open spec fn shown_chain(self, p: Seq<Seq<char>>) -> bool {
        &&& self.dep_closes(p)
        &&& p.drop_last().no_duplicates()
        &&& exists|r: int|
            0 <= r < self.nodes@.len() && #[trigger] self.nodes@[r].0 == p[0] && forall|i: int|
                0 <= i < r ==> !self.dep_leads(#[trigger] self.nodes@[i].0)
        &&& forall|i: int| 0 <= i < p.len() - 1 ==> self.first_dep(#[trigger] p[i], p[i + 1])
    }

    // ── the violations ─────────────────────────────────────────────────────────────────

    /// What is wrong with the root.
    pub open spec fn root_errors(self) -> Seq<Seq<char>> {
        match value_of(self.nodes@, self.root@) {
            None => seq!["root '"@ + self.root@ + "' is not a node"@],
            Some(r) => if r.parent is Some {
                seq!["root '"@ + self.root@ + "' must have no parent"@]
            } else {
                seq![]
            },
        }
    }

    /// What is wrong with the parent that a node names.
    pub open spec fn parent_errors(self, n: Node) -> Seq<Seq<char>> {
        match n.parent {
            Some(p) => match value_of(self.nodes@, p@) {
                None => seq![n.id@ + ": parent '"@ + p@ + "' missing"@],
                Some(q) => if !texts(q.children@).contains(n.id@) {
                    seq![
                        n.id@ + ": parent '"@ + p@
                            + "' does not list it as a child (one-home broken)"@,
                    ]
                } else {
                    seq![]
                },
            },
            None => if n.id@ != self.root@ {
                seq![n.id@ + ": no parent (only the root may be parentless)"@]
            } else {
                seq![]
            },
        }
    }

    /// What is wrong with the child `c` that a node lists.
    pub open spec fn child_errors(self, n: Node) -> spec_fn(int) -> Seq<Seq<char>> {
        |i: int|
            {
                let c = n.children@[i]@;
                match value_of(self.nodes@, c) {
                    None => seq![n.id@ + ": child '"@ + c + "' missing"@],
                    Some(q) => if text_opt(q.parent) != Some(n.id@) {
                        seq![
                            n.id@ + ": child '"@ + c
                                + "' does not name it as parent (one-home broken)"@,
                        ]
                    } else {
                        seq![]
                    },
                }
            }
    }

    /// What is wrong with a dependency of a node.
    pub open spec fn dep_errors(self, n: Node) -> spec_fn(int) -> Seq<Seq<char>> {
        |i: int|
            {
                let d = n.depends_on@[i]@;
                if named(self.nodes@, d) {
                    seq![]
                } else {
                    seq![n.id@ + ": depends_on '"@ + d + "' missing"@]
                }
            }
    }

    /// What is wrong with the ids that a node names.
    pub open spec fn link_errors(self) -> spec_fn(int) -> Seq<Seq<char>> {
        |i: int|
            {
                let n = self.nodes@[i].1;
                self.parent_errors(n) + gather(n.children@.len() as int, self.child_errors(n)) + gather(
                    n.depends_on@.len() as int,
                    self.dep_errors(n),
                )
            }
    }

    /// What is wrong with the way up from a node.
    pub open spec fn home_errors(self) -> spec_fn(int) -> Seq<Seq<char>> {
        |i: int|
            {
                let n = self.nodes@[i].1;
                if n.id@ == self.root@ || self.rooted(n.id@) {
                    seq![]
                } else if self.lost(n.id@) {
                    seq![n.id@ + ": not reachable from root '"@ + self.root@ + "'"@]
                } else {
                    seq![n.id@ + ": containment cycle"@]
                }
            }
    }

    /// Every violation but a dependency cycle, in the order in which they are reported.
    pub open spec fn structure_errors(self) -> Seq<Seq<char>> {
        self.root_errors() + gather(self.nodes@.len() as int, self.link_errors()) + gather(
            self.nodes@.len() as int,
            self.home_errors(),
        )
    }

    /// Whether `errs` lists the violations of the tree: its structural ones, and behind them a
    /// dependency cycle where there is one.
    pub open spec fn violations(self, errs: Seq<Seq<char>>) -> bool {
        if self.dep_cyclic() {
            exists|p: Seq<Seq<char>>| #[trigger]
                self.shown_chain(p) && errs == self.structure_errors().push(
                    "dependency cycle: "@ + joined(p, " -> "@),
                )
        } else {
            errs == self.structure_errors()
        }
    }

    // ── building ───────────────────────────────────────────────────────────────────────

    /// A tree without nodes.
    pub fn new(root: NodeId) -> (r: Tree)
        ensures
            r.root == root,
            r.nodes@.len() == 0,
            r.keyed(),
    {
        Tree { nodes: Table::new(), root }
    }

    /// Puts a node under its id, in place of the one that stood there.
    pub fn insert(&mut self, node: Node)
        ensures
            final(self).root == old(self).root,
            same_but(final(self).nodes@, old(self).nodes@, node.id@, node),
            in_order(false, final(self).nodes@),
            old(self).keyed() ==> final(self).keyed(),
    {
        let ghost pre = *self;
        let id = node.id.clone();
        proof {
            use_type_invariant(&self.nodes);
        }
        self.nodes.insert(id, node);
        proof {
            if pre.keyed() {
                assert forall|i: int| 0 <= i < self.nodes@.len() implies (
                #[trigger] self.nodes@[i]).1.id@ == self.nodes@[i].0 by {
                    let k = self.nodes@[i].0;
                    row_unique(false, self.nodes@, i);
                    if k != node.id@ {
                        assert(value_of(self.nodes@, k) == value_of(pre.nodes@, k));
                        let j = row_of(pre.nodes@, k)->0;
                        assert(0 <= j < pre.nodes@.len() && pre.nodes@[j].0 == k);
                    }
                }
            }
        }
    }

    // ── checking ───────────────────────────────────────────────────────────────────────

    proof fn up_stays_lost(self, id: Seq<char>, k: nat, m: nat)
        requires
            self.up(id, k) is None,
            k <= m,
        ensures
            self.up(id, m) is None,
        decreases m,
    {
        if k < m {
            self.up_stays_lost(id, k, (m - 1) as nat);
        }
    }

    /// A way up that comes back to an earlier id stays among the ids before.
    proof fn up_goes_round(self, id: Seq<char>, j: nat, n: nat, k: nat) -> (m: nat)
        requires
            j < n,
            self.up(id, j) == self.up(id, n),
        ensures
            m < n,
            self.up(id, k) == self.up(id, m),
        decreases k,
    {
        if k < n {
            k
        } else if k == n {
            j
        } else {
            let m = self.up_goes_round(id, j, n, (k - 1) as nat);
            if m + 1 == n {
                j
            } else {
                m + 1
            }
        }
    }

    /// Different ids that stand in the tree are no more than its nodes.
    proof fn few_ids(self, ids: Seq<Seq<char>>)
        requires
            ids.no_duplicates(),
            forall|i: int| 0 <= i < ids.len() ==> named(self.nodes@, #[trigger] ids[i]),
        ensures
            ids.len() <= self.nodes@.len(),
    {
        let names = self.nodes@.map_values(|r: (Seq<char>, Node)| r.0);
        ids.unique_seq_to_set();
        names.lemma_cardinality_of_set();
        assert(ids.to_set().subset_of(names.to_set())) by {
            assert forall|x: Seq<char>| ids.to_set().contains(x) implies names.to_set().contains(x) by {
                let i = choose|i: int| 0 <= i < ids.len() && ids[i] == x;
                assert(named(self.nodes@, ids[i]));
                let j = choose|j: int| 0 <= j < self.nodes@.len() && #[trigger] self.nodes@[j].0 == x;
                assert(names[j] == x);
            }
        }
        vstd::set_lib::lemma_len_subset(ids.to_set(), names.to_set());
    }

    /// The ids on the way up from `id`, up to where it ends or comes back to one of them; and
    /// whether it ends.
    pub fn way_up(&self, id: &str) -> (r: (Vec<String>, bool))
        ensures
            forall|i: int|
                0 <= i < r.0@.len() ==> self.up(id@, i as nat) == Some(#[trigger] texts(r.0@)[i]),
            forall|k: nat|
                (#[trigger] self.up(id@, k)) is Some ==> exists|m: int|
                    0 <= m <= k && m < r.0@.len() && self.up(id@, k) == Some(
                        #[trigger] texts(r.0@)[m],
                    ),
            r.1 == self.lost(id@),
    {
        let mut seen: Vec<String> = Vec::new();
        let mut cur: String = id.to_owned();
        let total = self.nodes.len();
        loop
            invariant
                total == self.nodes@.len(),
                self.up(id@, seen.len() as nat) == Some(cur@),
                forall|i: int|
                    0 <= i < seen.len() ==> self.up(id@, i as nat) == Some(#[trigger] texts(seen@)[i]),
                forall|i: int|
                    0 <= i < seen.len() ==> named(self.nodes@, #[trigger] texts(seen@)[i]),
                texts(seen@).no_duplicates(),
                seen.len() <= total,
            decreases total - seen.len(),
        {
            if holds(&seen, cur.as_str()) {
                proof {
                    let j = choose|j: int| 0 <= j < texts(seen@).len() && texts(seen@)[j] == cur@;
                    let n = seen.len() as nat;
                    assert forall|k: nat| (#[trigger] self.up(id@, k)) is Some implies exists|m: int|
                        0 <= m <= k && m < seen@.len() && self.up(id@, k) == Some(
                            #[trigger] texts(seen@)[m],
                        ) by {
                        let m = self.up_goes_round(id@, j as nat, n, k);
                        assert(self.up(id@, k) == Some(texts(seen@)[m as int]));
                        if m > k {
                            assert(self.up(id@, k) == Some(texts(seen@)[k as int]));
                        }
                    }
                    assert forall|k: nat| (#[trigger] self.up(id@, k)) is Some by {
                        let m = self.up_goes_round(id@, j as nat, n, k);
                        assert(self.up(id@, m) == Some(texts(seen@)[m as int]));
                    }
                }
                return (seen, false);
            }
            let ghost n = seen.len() as nat;
            let ghost before = seen@;
            let next = match self.nodes.get(cur.as_str()) {
                Some(node) => match &node.parent {
                    Some(p) => Some(p.clone()),
                    None => None,
                },
                None => None,
            };
            match next {
                Some(p) => {
                    proof {
                        let more = texts(seen@).push(cur@);
                        assert forall|i: int| 0 <= i < more.len() implies named(
                            self.nodes@,
                            #[trigger] more[i],
                        ) by {
                            if i < seen.len() {
                                assert(named(self.nodes@, texts(seen@)[i]));
                            }
                        }
                        assert(more.no_duplicates());
                        self.few_ids(more);
                    }
                    put(&mut seen, cur);
                    cur = p;
                },
                None => {
                    put(&mut seen, cur);
                    proof {
                        assert(self.up(id@, n + 1) is None);
                        assert forall|k: nat| (#[trigger] self.up(id@, k)) is Some implies exists|m: int|
                            0 <= m <= k && m < seen@.len() && self.up(id@, k) == Some(
                                #[trigger] texts(seen@)[m],
                            ) by {
                            if k > n {
                                self.up_stays_lost(id@, n + 1, k);
                            }
                            assert(self.up(id@, k) == Some(texts(seen@)[k as int]));
                        }
                    }
                    return (seen, true);
                },
            }
        }
    }

    /// Follows the parents up from `id`.
    fn climb(&self, id: &str) -> (r: Climb)
        ensures
            r == Climb::Root <==> self.rooted(id@),
            r == Climb::Lost <==> !self.rooted(id@) && self.lost(id@),
    {
        let (way, ends) = self.way_up(id);
        if holds(&way, self.root.as_str()) {
            proof {
                let i = choose|i: int| 0 <= i < texts(way@).len() && texts(way@)[i] == self.root@;
                assert(self.up(id@, i as nat) == Some(texts(way@)[i]));
            }
            Climb::Root
        } else {
            proof {
                assert forall|k: nat| #[trigger] self.up(id@, k) != Some(self.root@) by {
                    if self.up(id@, k) == Some(self.root@) {
                        let m = choose|m: int|
                            0 <= m <= k && m < way@.len() && self.up(id@, k) == Some(
                                #[trigger] texts(way@)[m],
                            );
                        assert(texts(way@).contains(self.root@));
                    }
                }
            }
            if ends {
                Climb::Lost
            } else {
                Climb::Round
            }
        }
    }

    proof fn shown_is_numbered(self, g: Seq<Vec<usize>>, p: Seq<usize>, q: Seq<Seq<char>>)
        requires
            self.numbered(g),
            g.len() <= usize::MAX,
            first_closing(g, p),
            self.dep_closes(q),
            q == Seq::new(p.len(), |i: int| self.nodes@[p[i] as int].0),
        ensures
            self.shown_chain(q),
    {
        let a = q.drop_last();
        let b = p.drop_last();
        assert forall|i: int, j: int| 0 <= i < a.len() && 0 <= j < a.len() && i != j implies a[i]
            != a[j] by {
            assert(b[i] != b[j]);
            row_unique(false, self.nodes@, p[i] as int);
            row_unique(false, self.nodes@, p[j] as int);
        }
        assert forall|i: int| 0 <= i < p[0] implies !self.dep_leads(#[trigger] self.nodes@[i].0) by {
            assert(!leads(g, i));
            self.leads_is_numbered(g, i);
        }
        assert(self.nodes@[p[0] as int].0 == q[0]);
        assert forall|i: int| 0 <= i < q.len() - 1 implies self.first_dep(#[trigger] q[i], q[i + 1]) by {
            assert(first_leading(g, p[i] as int, p[i + 1] as int));
            self.first_is_numbered(g, p[i] as int, p[i + 1] as int);
        }
    }

    /// There is one chain of dependencies that is shown.
    pub proof fn shown_chain_is_one(self, p: Seq<Seq<char>>, q: Seq<Seq<char>>)
        requires
            in_order(false, self.nodes@),
            self.shown_chain(p),
            self.shown_chain(q),
        ensures
            p == q,
    {
        let r = choose|r: int|
            0 <= r < self.nodes@.len() && #[trigger] self.nodes@[r].0 == p[0] && forall|i: int|
                0 <= i < r ==> !self.dep_leads(#[trigger] self.nodes@[i].0);
        let t = choose|r: int|
            0 <= r < self.nodes@.len() && #[trigger] self.nodes@[r].0 == q[0] && forall|i: int|
                0 <= i < r ==> !self.dep_leads(#[trigger] self.nodes@[i].0);
        assert(self.dep_leads(self.nodes@[r].0));
        assert(self.dep_leads(self.nodes@[t].0));
        assert(r == t);
        let n = if p.len() < q.len() {
            p.len()
        } else {
            q.len()
        };
        assert forall|k: int| 0 <= k < n implies p[k] == q[k] by {
            self.chains_agree(p, q, k);
        }
        if p.len() < q.len() {
            self.chain_ends(p, q);
        } else if q.len() < p.len() {
            self.chain_ends(q, p);
        }
        assert(p =~= q);
    }

    proof fn chains_agree(self, p: Seq<Seq<char>>, q: Seq<Seq<char>>, k: int)
        requires
            self.shown_chain(p),
            self.shown_chain(q),
            p[0] == q[0],
            0 <= k < p.len(),
            k < q.len(),
        ensures
            p[k] == q[k],
        decreases k,
    {
        if k > 0 {
            self.chains_agree(p, q, k - 1);
            let a = p[k - 1];
            assert(self.first_dep(p[k - 1], p[k - 1 + 1]));
            assert(self.first_dep(q[k - 1], q[k - 1 + 1]));
            let ds = self.deps_of(a);
            let x = choose|x: int|
                0 <= x < ds.len() && #[trigger] ds[x] == p[k] && self.dep_leads(p[k]) && forall|j: int|
                    0 <= j < x ==> !self.dep_leads(#[trigger] ds[j]);
            let y = choose|y: int|
                0 <= y < ds.len() && #[trigger] ds[y] == q[k] && self.dep_leads(q[k]) && forall|j: int|
                    0 <= j < y ==> !self.dep_leads(#[trigger] ds[j]);
            assert(self.dep_leads(ds[x]) && self.dep_leads(ds[y]));
            assert(x == y);
        }
    }

    /// A chain that is shown does not go on behind the node that it comes to again.
    proof fn chain_ends(self, p: Seq<Seq<char>>, q: Seq<Seq<char>>)
        requires
            self.shown_chain(p),
            self.shown_chain(q),
            p.len() < q.len(),
            forall|k: int| 0 <= k < p.len() ==> p[k] == q[k],
        ensures
            p.len() >= q.len(),
    {
        let i = choose|i: int| 0 <= i < p.len() - 1 && #[trigger] p[i] == p.last();
        let d = q.drop_last();
        let j = p.len() - 1;
        assert(d[i] == q[i] && d[j] == q[j]);
        assert(d[i] == d[j]);
    }

    /// The dependency of a node at a position, where it is a node.
    spec fn known_dep(self, n: Node) -> spec_fn(int) -> Seq<Seq<char>> {
        |k: int|
            if named(self.nodes@, n.depends_on@[k]@) {
                seq![n.depends_on@[k]@]
            } else {
                seq![]
            }
    }

    /// The ids of numbered nodes.
    spec fn ids_of(self, v: Seq<usize>) -> Seq<Seq<char>> {
        v.map_values(|j: usize| self.nodes@[j as int].0)
    }

    /// Whether the edges of `g` are the dependencies of the numbered nodes, in the order in which
    /// they are listed.
    #[verifier::opaque]
    spec fn lists_deps(self, g: Seq<Vec<usize>>) -> bool {
        forall|u: int|
            0 <= u < g.len() ==> self.ids_of((#[trigger] g[u])@) == gather(
                self.nodes@[u].1.depends_on@.len() as int,
                self.known_dep(self.nodes@[u].1),
            )
    }

    /// Whether `g` is the dependency graph over the numbered nodes.
    spec fn numbered(self, g: Seq<Vec<usize>>) -> bool {
        &&& g.len() == self.nodes@.len()
        &&& well_formed(g)
        &&& in_order(false, self.nodes@)
        &&& self.lists_deps(g)
    }

    proof fn edge_is_dependency(self, g: Seq<Vec<usize>>, i: int, j: int)
        requires
            self.numbered(g),
            0 <= i < g.len(),
            0 <= j < g.len(),
        ensures
            edge(g, i, j) <==> self.depends(self.nodes@[i].0, self.nodes@[j].0),
    {
        reveal(Tree::lists_deps);
        let n = self.nodes@[i].1;
        let x = self.nodes@[j].0;
        let ds = n.depends_on@.len() as int;
        row_unique(false, self.nodes@, i);
        assert(named(self.nodes@, x));
        gather_contains(ds, self.known_dep(n), x);
        let all = gather(ds, self.known_dep(n));
        assert(self.ids_of(g[i]@) == all);
        if edge(g, i, j) {
            let k = choose|k: int| 0 <= k < g[i]@.len() && #[trigger] g[i]@[k] == j;
            assert(self.ids_of(g[i]@)[k] == x);
            assert(all.contains(x));
            let m = choose|m: int| 0 <= m < ds && (#[trigger] (self.known_dep(n))(m)).contains(x);
            let one = (self.known_dep(n))(m);
            let o = choose|o: int| 0 <= o < one.len() && one[o] == x;
            assert(texts(n.depends_on@)[m] == x);
        }
        if self.depends(self.nodes@[i].0, x) {
            let m = choose|m: int| 0 <= m < texts(n.depends_on@).len() && texts(n.depends_on@)[m] == x;
            assert((self.known_dep(n))(m)[0] == x);
            assert((self.known_dep(n))(m).contains(x));
            let k = choose|k: int| 0 <= k < all.len() && all[k] == x;
            assert(self.ids_of(g[i]@)[k] == x);
            let v = g[i]@[k] as int;
            assert(self.nodes@[v].0 == x);
            row_unique(false, self.nodes@, v);
            row_unique(false, self.nodes@, j);
            assert(v == j);
        }
    }

    proof fn walk_is_chain(self, g: Seq<Vec<usize>>, p: Seq<usize>) -> (q: Seq<Seq<char>>)
        requires
            self.numbered(g),
            walk(g, p),
        ensures
            self.dep_walk(q),
            q == Seq::new(p.len(), |i: int| self.nodes@[p[i] as int].0),
    {
        let q = Seq::new(p.len(), |i: int| self.nodes@[p[i] as int].0);
        assert forall|i: int| 0 <= i < q.len() implies named(self.nodes@, #[trigger] q[i]) by {
            assert(p[i] < g.len());
            assert(self.nodes@[p[i] as int].0 == q[i]);
        }
        assert forall|i: int| 0 <= i < q.len() - 1 implies self.depends(#[trigger] q[i], q[i + 1]) by {
            assert(edge(g, p[i] as int, p[i + 1] as int));
            assert(p[i + 1] < g.len());
            self.edge_is_dependency(g, p[i] as int, p[i + 1] as int);
        }
        q
    }

    /// A chain of dependencies that closes contains a cycle.
    proof fn closing_is_cyclic(self, q: Seq<Seq<char>>)
        requires
            self.dep_closes(q),
        ensures
            self.dep_cyclic(),
    {
        let i = choose|i: int| 0 <= i < q.len() - 1 && #[trigger] q[i] == q.last();
        let t = q.skip(i);
        assert forall|k: int| 0 <= k < t.len() implies named(self.nodes@, #[trigger] t[k]) by {
            assert(t[k] == q[i + k]);
        }
        assert forall|k: int| 0 <= k < t.len() - 1 implies self.depends(#[trigger] t[k], t[k + 1]) by {
            assert(self.depends(q[i + k], q[i + k + 1]));
        }
        assert(self.dep_walk(t));
    }

    proof fn numbered_closes(self, g: Seq<Vec<usize>>, p: Seq<usize>) -> (q: Seq<Seq<char>>)
        requires
            self.numbered(g),
            closes(g, p),
        ensures
            self.dep_closes(q),
            q == Seq::new(p.len(), |i: int| self.nodes@[p[i] as int].0),
            self.dep_cyclic(),
    {
        let q = self.walk_is_chain(g, p);
        let i = choose|i: int| 0 <= i < p.len() - 1 && #[trigger] p[i] == p.last();
        assert(q[i] == q.last());
        self.closing_is_cyclic(q);
        q
    }

    proof fn numbered_walk(self, g: Seq<Vec<usize>>, q: Seq<Seq<char>>) -> (p: Seq<usize>)
        requires
            self.numbered(g),
            self.dep_walk(q),
            g.len() <= usize::MAX,
        ensures
            walk(g, p),
            p.len() == q.len(),
            forall|i: int| 0 <= i < p.len() ==> self.nodes@[#[trigger] p[i] as int].0 == q[i],
    {
        let p = Seq::new(q.len(), |i: int| row_of(self.nodes@, q[i])->0 as usize);
        assert forall|i: int| 0 <= i < p.len() implies (#[trigger] p[i]) < g.len()
            && self.nodes@[p[i] as int].0 == q[i] by {
            assert(named(self.nodes@, q[i]));
        }
        assert forall|i: int| 0 <= i < p.len() - 1 implies edge(
            g,
            #[trigger] p[i] as int,
            p[i + 1] as int,
        ) by {
            assert(self.depends(q[i], q[i + 1]));
            assert(p[i + 1] < g.len());
            self.edge_is_dependency(g, p[i] as int, p[i + 1] as int);
        }
        p
    }

    proof fn numbered_cyclic(self, g: Seq<Vec<usize>>)
        requires
            self.numbered(g),
            self.dep_cyclic(),
            g.len() <= usize::MAX,
        ensures
            cyclic(g),
    {
        let q = choose|p: Seq<Seq<char>>| #[trigger]
            self.dep_walk(p) && p.len() >= 2 && p[0] == p.last();
        let p = self.numbered_walk(g, q);
        row_unique(false, self.nodes@, p[0] as int);
        row_unique(false, self.nodes@, p.last() as int);
        assert(p[0] == p.last());
    }

    proof fn leads_is_numbered(self, g: Seq<Vec<usize>>, u: int)
        requires
            self.numbered(g),
            0 <= u < g.len() <= usize::MAX,
        ensures
            leads(g, u) <==> self.dep_leads(self.nodes@[u].0),
    {
        if leads(g, u) {
            let p = choose|p: Seq<usize>| #[trigger] closes(g, p) && p[0] == u;
            let q = self.numbered_closes(g, p);
            assert(self.dep_closes(q) && q[0] == self.nodes@[u].0);
        }
        if self.dep_leads(self.nodes@[u].0) {
            let q = choose|q: Seq<Seq<char>>| #[trigger]
                self.dep_closes(q) && q[0] == self.nodes@[u].0;
            let p = self.numbered_walk(g, q);
            let i = choose|i: int| 0 <= i < q.len() - 1 && #[trigger] q[i] == q.last();
            row_unique(false, self.nodes@, p[i] as int);
            row_unique(false, self.nodes@, p.last() as int);
            assert(p[i] == p.last());
            row_unique(false, self.nodes@, p[0] as int);
            row_unique(false, self.nodes@, u);
            assert(closes(g, p) && p[0] == u);
        }
    }

    proof fn first_is_numbered(self, g: Seq<Vec<usize>>, u: int, v: int)
        requires
            self.numbered(g),
            0 <= u < g.len() <= usize::MAX,
            0 <= v < g.len(),
            first_leading(g, u, v),
        ensures
            self.first_dep(self.nodes@[u].0, self.nodes@[v].0),
    {
        reveal(Tree::lists_deps);
        let n = self.nodes@[u].1;
        let a = self.nodes@[u].0;
        let f = self.known_dep(n);
        let total = n.depends_on@.len() as int;
        let all = gather(total, f);
        row_unique(false, self.nodes@, u);
        assert(self.deps_of(a) == texts(n.depends_on@));
        let k = choose|k: int|
            0 <= k < g[u]@.len() && #[trigger] g[u]@[k] == v && leads(g, v) && forall|j: int|
                0 <= j < k ==> !leads(g, #[trigger] g[u]@[j] as int);
        assert(self.ids_of(g[u]@) == all);
        assert(all[k] == self.nodes@[v].0);
        let m = gathered_position(total, f, k);
        self.leads_is_numbered(g, v);
        assert(self.deps_of(a)[m] == self.nodes@[v].0);
        assert forall|j: int| 0 <= j < m implies !self.dep_leads(#[trigger] self.deps_of(a)[j]) by {
            let d = self.deps_of(a)[j];
            if self.dep_leads(d) {
                let q = choose|q: Seq<Seq<char>>| #[trigger] self.dep_closes(q) && q[0] == d;
                assert(named(self.nodes@, q[0]));
                assert(f(j) == seq![d]);
                gathered_prefix(total, f, j);
                gathered_prefix(m, f, j);
                let o = gather(j, f).len() as int;
                assert(all[o] == d);
                assert(self.ids_of(g[u]@)[o] == d);
                let w = g[u]@[o] as int;
                self.leads_is_numbered(g, w);
                assert(!leads(g, g[u]@[o] as int));
            }
        }
    }

    /// The dependency graph over the numbered nodes.
    fn dep_graph(&self) -> (g: Vec<Vec<usize>>)
        ensures
            self.numbered(g@),
    {
        let mut g: Vec<Vec<usize>> = Vec::new();
        let total = self.nodes.len();
        let mut i: usize = 0;
        while i < total
            invariant
                i <= total == self.nodes@.len(),
                in_order(false, self.nodes@),
                g.len() == i,
                forall|u: int, k: int|
                    0 <= u < i && 0 <= k < g@[u]@.len() ==> (#[trigger] g@[u]@[k]) < total,
                forall|u: int|
                    0 <= u < i ==> self.ids_of((#[trigger] g@[u])@) == gather(
                        self.nodes@[u].1.depends_on@.len() as int,
                        self.known_dep(self.nodes@[u].1),
                    ),
            decreases total - i,
        {
            let n = self.nodes.value(i);
            let mut out: Vec<usize> = Vec::new();
            let mut k: usize = 0;
            while k < n.depends_on.len()
                invariant
                    i < total == self.nodes@.len(),
                    in_order(false, self.nodes@),
                    k <= n.depends_on@.len(),
                    *n == self.nodes@[i as int].1,
                    forall|m: int| 0 <= m < out.len() ==> (#[trigger] out@[m]) < total,
                    self.ids_of(out@) =~= gather(k as int, self.known_dep(*n)),
                decreases n.depends_on@.len() - k,
            {
                let ghost out0 = out@;
                match self.nodes.find(n.depends_on[k].as_str()) {
                    Some(j) => {
                        out.push(j);
                        assert(self.ids_of(out@) =~= self.ids_of(out0).push(n.depends_on@[k as int]@));
                    },
                    None => {},
                }
                k += 1;
            }
            let ghost g0 = g@;
            g.push(out);
            proof {
                assert forall|u: int| 0 <= u < i + 1 implies self.ids_of((#[trigger] g@[u])@)
                    == gather(
                    self.nodes@[u].1.depends_on@.len() as int,
                    self.known_dep(self.nodes@[u].1),
                ) by {
                    if u < i {
                        assert(g@[u] == g0[u]);
                    }
                }
            }
            i += 1;
        }
        assert(self.lists_deps(g@)) by {
            reveal(Tree::lists_deps);
        }
        g
    }

    /// The chain of dependencies that is shown, where one closes.
    fn dep_cycle(&self) -> (r: Option<Vec<NodeId>>)
        ensures
            match r {
                Some(c) => self.shown_chain(texts(c@)) && self.dep_cyclic(),
                None => !self.dep_cyclic(),
            },
    {
        let g = self.dep_graph();
        let total = g.len();
        proof {
            if self.dep_cyclic() {
                self.numbered_cyclic(g@);
            }
        }
        match find_cycle(&g) {
            None => None,
            Some(p) => {
                let ghost q = self.numbered_closes(g@, p@);
                proof {
                    self.shown_is_numbered(g@, p@, q);
                }
                let mut c: Vec<NodeId> = Vec::new();
                let mut i: usize = 0;
                while i < p.len()
                    invariant
                        i <= p.len(),
                        forall|j: int| 0 <= j < p.len() ==> (#[trigger] p@[j]) < self.nodes@.len(),
                        q == Seq::new(p@.len(), |i: int| self.nodes@[p@[i] as int].0),
                        texts(c@) =~= q.take(i as int),
                    decreases p.len() - i,
                {
                    put(&mut c, self.nodes.name(p[i]).clone());
                    i += 1;
                }
                assert(q.take(p@.len() as int) =~= q);
                Some(c)
            },
        }
    }

    /// The violations of the ids that one node names.
    fn check_links(&self, n: &Node) -> (r: Vec<String>)
        ensures
            texts(r@) == self.parent_errors(*n) + gather(
                n.children@.len() as int,
                self.child_errors(*n),
            ) + gather(n.depends_on@.len() as int, self.dep_errors(*n)),
    {
        let mut errs: Vec<String> = Vec::new();
        match &n.parent {
            Some(p) => match self.nodes.get(p.as_str()) {
                None => {
                    put(&mut errs, cat4(n.id.as_str(), ": parent '", p.as_str(), "' missing"));
                },
                Some(q) => if !holds(&q.children, n.id.as_str()) {
                    put(&mut errs, 
                        cat4(
                            n.id.as_str(),
                            ": parent '",
                            p.as_str(),
                            "' does not list it as a child (one-home broken)",
                        ),
                    );
                },
            },
            None => if !same(n.id.as_str(), self.root.as_str()) {
                put(&mut errs, 
                    cat2(
                        n.id.as_str(),
                        ": no parent (only the root may be parentless)",
                    ),
                );
            },
        }
        assert(texts(errs@) =~= self.parent_errors(*n));
        let ghost base = texts(errs@);
        let mut i: usize = 0;
        while i < n.children.len()
            invariant
                i <= n.children@.len(),
                texts(errs@) =~= base + gather(i as int, self.child_errors(*n)),
            decreases n.children@.len() - i,
        {
            let c = &n.children[i];
            match self.nodes.get(c.as_str()) {
                None => {
                    put(&mut errs, cat4(n.id.as_str(), ": child '", c.as_str(), "' missing"));
                },
                Some(q) => {
                    let agrees = match &q.parent {
                        Some(p) => same(p.as_str(), n.id.as_str()),
                        None => false,
                    };
                    if !agrees {
                        put(&mut errs, 
                            cat4(
                                n.id.as_str(),
                                ": child '",
                                c.as_str(),
                                "' does not name it as parent (one-home broken)",
                            ),
                        );
                    }
                },
            }
            i += 1;
        }
        let ghost base = texts(errs@);
        let mut i: usize = 0;
        while i < n.depends_on.len()
            invariant
                i <= n.depends_on@.len(),
                texts(errs@) =~= base + gather(i as int, self.dep_errors(*n)),
            decreases n.depends_on@.len() - i,
        {
            let d = &n.depends_on[i];
            if !self.nodes.contains(d.as_str()) {
                put(&mut errs, cat4(n.id.as_str(), ": depends_on '", d.as_str(), "' missing"));
            }
            i += 1;
        }
        errs
    }

    /// The violations of the tree, none where it is valid: there is one root, without a parent;
    /// every parent, child and dependency is a node; parents and children agree; every node
    /// has its way up to the root; no dependency comes back to itself.
    pub fn check(&self) -> (r: Vec<String>)
        ensures
            self.violations(texts(r@)),
            in_order(false, self.nodes@),
    {
        let mut errs: Vec<String> = Vec::new();
        match self.nodes.get(self.root.as_str()) {
            None => {
                put(&mut errs, cat3("root '", self.root.as_str(), "' is not a node"));
            },
            Some(r) => if r.parent.is_some() {
                put(&mut errs, cat3("root '", self.root.as_str(), "' must have no parent"));
            },
        }
        assert(texts(errs@) =~= self.root_errors());
        let total = self.nodes.len();
        let mut i: usize = 0;
        while i < total
            invariant
                i <= total == self.nodes@.len(),
                texts(errs@) =~= self.root_errors() + gather(i as int, self.link_errors()),
            decreases total - i,
        {
            let more = self.check_links(self.nodes.value(i));
            put_all(&mut errs, &more);
            i += 1;
        }
        let ghost base = texts(errs@);
        let mut i: usize = 0;
        while i < total
            invariant
                i <= total == self.nodes@.len(),
                texts(errs@) =~= base + gather(i as int, self.home_errors()),
            decreases total - i,
        {
            let n = self.nodes.value(i);
            if !same(n.id.as_str(), self.root.as_str()) {
                match self.climb(n.id.as_str()) {
                    Climb::Root => {},
                    Climb::Lost => {
                        put(&mut errs, 
                            cat4(
                                n.id.as_str(),
                                ": not reachable from root '",
                                self.root.as_str(),
                                "'",
                            ),
                        );
                    },
                    Climb::Round => {
                        put(&mut errs, cat2(n.id.as_str(), ": containment cycle"));
                    },
                }
            }
            i += 1;
        }
        match self.dep_cycle() {
            Some(c) => {
                put(&mut errs, 
                    cat2("dependency cycle: ", join(&c, " -> ").as_str()),
                );
            },
            None => {},
        }
        errs
    }

    // ── folding ────────────────────────────────────────────────────────────────────────

    /// Whether the node `a` lists the node `b` as a child.
    pub open spec fn contains(self, a: Seq<char>, b: Seq<char>) -> bool {
        named(self.nodes@, b) && match value_of(self.nodes@, a) {
            Some(n) => texts(n.children@).contains(b),
            None => false,
        }
    }

    /// Whether `p` is a chain of nodes, each of which lists the next as a child.
    pub open spec fn descent(self, p: Seq<Seq<char>>) -> bool {
        &&& p.len() >= 1
        &&& forall|i: int| 0 <= i < p.len() ==> named(self.nodes@, #[trigger] p[i])
        &&& forall|i: int| 0 <= i < p.len() - 1 ==> self.contains(#[trigger] p[i], p[i + 1])
    }

    /// Whether the node `id` is found on the way down from the root.
    pub open spec fn within(self, id: Seq<char>) -> bool {
        exists|p: Seq<Seq<char>>| #[trigger]
            self.descent(p) && p[0] == self.root@ && p.last() == id
    }

    /// Whether every way down from `id` has fewer than `n` steps.
    pub open spec fn shallow(self, id: Seq<char>, n: nat) -> bool
        decreases n,
    {
        n > 0 && match value_of(self.nodes@, id) {
            Some(node) => forall|k: int|
                0 <= k < node.children@.len() ==> self.shallow(
                    #[trigger] node.children@[k]@,
                    (n - 1) as nat,
                ),
            None => true,
        }
    }

    /// Whether the way down from the root comes to an end everywhere.
    pub open spec fn foldable(self) -> bool {
        exists|n: nat| self.shallow(self.root@, n)
    }

    /// The child of a node at a position, where it is a node.
    pub open spec fn kid(self, n: Node) -> spec_fn(int) -> Seq<Seq<char>> {
        |i: int|
            if named(self.nodes@, n.children@[i]@) {
                seq![n.children@[i]@]
            } else {
                seq![]
            }
    }

    /// The children of a node that are nodes.
    pub open spec fn kids(self, n: Node) -> Seq<Seq<char>> {
        gather(n.children@.len() as int, self.kid(n))
    }

    /// Whether the value at `id` is what `f` gives for the node and the values at its children.
    pub open spec fn folded_at<T: Clone, F: Fn(&Node, &[T]) -> T>(
        self,
        f: F,
        rows: Seq<(Seq<char>, T)>,
        id: Seq<char>,
    ) -> bool {
        match value_of(self.nodes@, id) {
            Some(n) => exists|s: &[T]|
                {
                    &&& #[trigger] call_ensures(f, (&n, s), value_of(rows, id)->0)
                    &&& s@.len() == self.kids(n).len()
                    &&& forall|k: int|
                        0 <= k < s@.len() ==> named(rows, #[trigger] self.kids(n)[k]) && cloned(
                            value_of(rows, self.kids(n)[k])->0,
                            s@[k],
                        )
                },
            None => false,
        }
    }

    /// Whether every value is that of a node on the way down from the root, folded from the
    /// values at its children.
    pub open spec fn folding<T: Clone, F: Fn(&Node, &[T]) -> T>(
        self,
        f: F,
        rows: Seq<(Seq<char>, T)>,
    ) -> bool {
        forall|id: Seq<char>| #[trigger]
            named(rows, id) ==> self.within(id) && self.folded_at(f, rows, id)
    }

    proof fn folded_later<T: Clone, F: Fn(&Node, &[T]) -> T>(
        self,
        f: F,
        rows: Seq<(Seq<char>, T)>,
        more: Seq<(Seq<char>, T)>,
        id: Seq<char>,
    )
        requires
            self.folded_at(f, rows, id),
            named(rows, id),
            forall|x: Seq<char>| #[trigger]
                named(rows, x) ==> named(more, x) && value_of(more, x) == value_of(rows, x),
        ensures
            self.folded_at(f, more, id),
    {
        let n = value_of(self.nodes@, id)->0;
        let s = choose|s: &[T]|
            {
                &&& #[trigger] call_ensures(f, (&n, s), value_of(rows, id)->0)
                &&& s@.len() == self.kids(n).len()
                &&& forall|k: int|
                    0 <= k < s@.len() ==> named(rows, #[trigger] self.kids(n)[k]) && cloned(
                        value_of(rows, self.kids(n)[k])->0,
                        s@[k],
                    )
            };
        assert(call_ensures(f, (&n, s), value_of(more, id)->0));
    }

    proof fn within_step(self, a: Seq<char>, b: Seq<char>)
        requires
            self.within(a),
            self.contains(a, b),
        ensures
            self.within(b),
    {
        let p = choose|p: Seq<Seq<char>>| #[trigger]
            self.descent(p) && p[0] == self.root@ && p.last() == a;
        let q = p.push(b);
        assert forall|i: int| 0 <= i < q.len() - 1 implies self.contains(#[trigger] q[i], q[i + 1]) by {
            if i < p.len() - 1 {
                assert(self.contains(p[i], p[i + 1]));
            }
        }
        assert(self.descent(q));
    }

    proof fn within_named(self, id: Seq<char>)
        requires
            self.within(id),
        ensures
            named(self.nodes@, id),
    {
        let p = choose|p: Seq<Seq<char>>| #[trigger]
            self.descent(p) && p[0] == self.root@ && p.last() == id;
        assert(named(self.nodes@, p[p.len() - 1]));
    }

    /// Whether nodes stand in an order to fold them in: each once, each on the way down from the
    /// root, and each behind all of its children.
    pub open spec fn fold_sequence(self, v: Seq<Seq<char>>) -> bool {
        &&& v.no_duplicates()
        &&& forall|i: int| 0 <= i < v.len() ==> self.within(#[trigger] v[i])
        &&& forall|i: int, c: Seq<char>|
            0 <= i < v.len() && #[trigger] self.contains(v[i], c) ==> listed_before(v, i, c)
    }

    /// The least number that every way down from `id` has fewer steps than.
    proof fn least_depth(self, id: Seq<char>, n: nat) -> (m: nat)
        requires
            self.shallow(id, n),
        ensures
            0 < m <= n,
            self.shallow(id, m),
            !self.shallow(id, (m - 1) as nat),
        decreases n,
    {
        if self.shallow(id, (n - 1) as nat) {
            self.least_depth(id, (n - 1) as nat)
        } else {
            n
        }
    }

    proof fn sequence_grows(self, v: Seq<Seq<char>>, id: Seq<char>)
        requires
            self.fold_sequence(v),
            self.within(id),
            !v.contains(id),
            forall|c: Seq<char>| #[trigger] self.contains(id, c) ==> v.contains(c),
        ensures
            self.fold_sequence(v.push(id)),
    {
        let w = v.push(id);
        assert forall|i: int, j: int| 0 <= i < w.len() && 0 <= j < w.len() && i != j implies w[i]
            != w[j] by {
            if i == v.len() {
                assert(v.contains(v[j]));
            } else if j == v.len() {
                assert(v.contains(v[i]));
            }
        }
        assert forall|i: int, c: Seq<char>|
            0 <= i < w.len() && #[trigger] self.contains(w[i], c) implies listed_before(w, i, c) by {
            if i < v.len() {
                assert(self.contains(v[i], c));
                let j = choose|j: int| 0 <= j < i && #[trigger] v[j] == c;
                assert(w[j] == c);
            } else {
                assert(v.contains(c));
                let j = choose|j: int| 0 <= j < v.len() && v[j] == c;
                assert(w[j] == c);
            }
        }
    }

    fn list_rec(&self, id: &str, out: &mut Vec<NodeId>, seen: &mut Names, Ghost(n): Ghost<nat>)
        requires
            self.shallow(id@, n),
            !self.shallow(id@, (n - 1) as nat),
            named(self.nodes@, id@) ==> self.within(id@),
            self.fold_sequence(texts(old(out)@)),
            forall|x: Seq<char>| #[trigger]
                named(old(seen)@, x) <==> texts(old(out)@).contains(x),
        ensures
            self.fold_sequence(texts(final(out)@)),
            forall|x: Seq<char>| #[trigger]
                named(final(seen)@, x) <==> texts(final(out)@).contains(x),
            texts(old(out)@).is_prefix_of(texts(final(out)@)),
            named(self.nodes@, id@) ==> texts(final(out)@).contains(id@),
            named(self.nodes@, id@) && !texts(old(out)@).contains(id@) ==> texts(final(out)@).len()
                > 0 && texts(final(out)@).last() == id@,
            forall|i: int|
                old(out)@.len() <= i < final(out)@.len() ==> self.shallow(
                    #[trigger] texts(final(out)@)[i],
                    n,
                ),
        decreases n,
    {
        let ghost out0 = texts(out@);
        let node = match self.nodes.get(id) {
            Some(node) => node,
            None => {
                return ;
            },
        };
        if seen.contains(id) {
            return ;
        }
        let mut i: usize = 0;
        while i < node.children.len()
            invariant
                i <= node.children@.len(),
                self.shallow(id@, n),
                self.within(id@),
                value_of(self.nodes@, id@) == Some(*node),
                self.fold_sequence(texts(out@)),
                forall|x: Seq<char>| #[trigger] named(seen@, x) <==> texts(out@).contains(x),
                out0.is_prefix_of(texts(out@)),
                forall|k: int|
                    0 <= k < i && named(self.nodes@, #[trigger] node.children@[k]@) ==> texts(
                        out@,
                    ).contains(node.children@[k]@),
                forall|k: int|
                    out0.len() <= k < out@.len() ==> self.shallow(
                        #[trigger] texts(out@)[k],
                        (n - 1) as nat,
                    ),
            decreases node.children@.len() - i,
        {
            let c = &node.children[i];
            let ghost before = texts(out@);
            let ghost m: nat = 0;
            proof {
                if named(self.nodes@, c@) {
                    assert(texts(node.children@)[i as int] == c@);
                    self.within_step(id@, c@);
                }
                assert(self.shallow(node.children@[i as int]@, (n - 1) as nat));
                m = self.least_depth(c@, (n - 1) as nat);
            }
            self.list_rec(c.as_str(), out, seen, Ghost(m));
            proof {
                let now = texts(out@);
                assert(now.len() == out@.len());
                assert forall|k: int| out0.len() <= k < out@.len() implies self.shallow(
                    #[trigger] now[k],
                    (n - 1) as nat,
                ) by {
                    if k < before.len() {
                        assert(now[k] == before[k]);
                    } else {
                        assert(self.shallow(now[k], m));
                        self.shallow_grows(now[k], m, (n - 1) as nat);
                    }
                }
                assert forall|k: int|
                    0 <= k < i + 1 && named(self.nodes@, #[trigger] node.children@[k]@) implies now.contains(
                node.children@[k]@) by {
                    if k < i {
                        let q = choose|q: int|
                            0 <= q < before.len() && before[q] == node.children@[k]@;
                        assert(now[q] == before[q]);
                    }
                }
            }
            i += 1;
        }
        let ghost mid = texts(out@);
        proof {
            if mid.contains(id@) {
                let q = choose|q: int| 0 <= q < mid.len() && mid[q] == id@;
                if q < out0.len() {
                    assert(out0[q] == mid[q]);
                    assert(out0.contains(id@));
                } else {
                    assert(self.shallow(mid[q], (n - 1) as nat));
                }
            }
            assert forall|c: Seq<char>| #[trigger] self.contains(id@, c) implies mid.contains(c) by {
                let k = choose|k: int|
                    0 <= k < texts(node.children@).len() && texts(node.children@)[k] == c;
                assert(node.children@[k]@ == c);
            }
            self.sequence_grows(mid, id@);
            assert(mid.push(id@)[mid.len() as int] == id@);
        }
        put(out, id.to_owned());
        let ghost marked = seen@;
        seen.insert(id.to_owned(), ());
        proof {
            let now = texts(out@);
            assert(now == mid.push(id@));
            assert forall|x: Seq<char>| #[trigger] named(seen@, x) <==> now.contains(x) by {
                crate::order::pushed_contains(mid, id@, x);
                if x != id@ {
                    assert(named(seen@, x) <==> named(marked, x));
                }
            }
            assert forall|k: int| out0.len() <= k < out@.len() implies self.shallow(
                #[trigger] now[k],
                n,
            ) by {
                if k < mid.len() {
                    assert(now[k] == mid[k]);
                    self.shallow_grows(now[k], (n - 1) as nat, n);
                }
            }
        }
    }

    proof fn sequence_covers(self, v: Seq<Seq<char>>, p: Seq<Seq<char>>, k: int)
        requires
            self.fold_sequence(v),
            self.descent(p),
            v.contains(p[0]),
            0 <= k < p.len(),
        ensures
            v.contains(p[k]),
        decreases k,
    {
        if k > 0 {
            self.sequence_covers(v, p, k - 1);
            let i = choose|i: int| 0 <= i < v.len() && v[i] == p[k - 1];
            assert(self.contains(p[k - 1], p[k]));
            assert(self.contains(v[i], p[k]));
            assert(listed_before(v, i, p[k]));
        }
    }

    /// The order in which nodes are folded: every node on the way down from the root once, behind
    /// all of its children, the root last.
    pub fn fold_order(&self) -> (r: Vec<NodeId>)
        requires
            self.foldable(),
        ensures
            self.fold_sequence(texts(r@)),
            forall|id: Seq<char>| #[trigger] texts(r@).contains(id) <==> self.within(id),
            texts(r@).len() > 0 ==> texts(r@).last() == self.root@,
    {
        let mut out: Vec<NodeId> = Vec::new();
        let mut seen: Names = Table::new();
        let ghost n: nat = 0;
        proof {
            let most = choose|n: nat| self.shallow(self.root@, n);
            n = self.least_depth(self.root@, most);
            if named(self.nodes@, self.root@) {
                assert(self.descent(seq![self.root@]));
            }
            assert(texts(out@) =~= Seq::<Seq<char>>::empty());
        }
        self.list_rec(self.root.as_str(), &mut out, &mut seen, Ghost(n));
        proof {
            let v = texts(out@);
            assert forall|id: Seq<char>| #[trigger] v.contains(id) <==> self.within(id) by {
                if v.contains(id) {
                    let i = choose|i: int| 0 <= i < v.len() && v[i] == id;
                    assert(self.within(v[i]));
                }
                if self.within(id) {
                    let p = choose|p: Seq<Seq<char>>| #[trigger]
                        self.descent(p) && p[0] == self.root@ && p.last() == id;
                    assert(named(self.nodes@, p[0]));
                    self.sequence_covers(v, p, p.len() - 1);
                }
            }
            if v.len() > 0 {
                assert(v.contains(v[0]));
                let p = choose|p: Seq<Seq<char>>| #[trigger]
                    self.descent(p) && p[0] == self.root@ && p.last() == v[0];
                assert(named(self.nodes@, p[0]));
            }
        }
        out
    }

    /// The values at the children of a node.
    fn list_kids<T: Clone>(&self, node: &Node, out: &Table<T, false>) -> (r: Vec<T>)
        requires
            forall|x: Seq<char>| #[trigger] named(out@, x) ==> named(self.nodes@, x),
            forall|k: int|
                0 <= k < node.children@.len() && named(
                    self.nodes@,
                    #[trigger] node.children@[k]@,
                ) ==> named(out@, node.children@[k]@),
        ensures
            r@.len() == self.kids(*node).len(),
            forall|k: int|
                0 <= k < r@.len() ==> named(out@, #[trigger] self.kids(*node)[k]) && cloned(
                    value_of(out@, self.kids(*node)[k])->0,
                    r@[k],
                ),
    {
        let mut kids: Vec<T> = Vec::new();
        let mut i: usize = 0;
        while i < node.children.len()
            invariant
                i <= node.children@.len(),
                kids.len() == gather(i as int, self.kid(*node)).len(),
                forall|k: int|
                    0 <= k < kids.len() ==> named(
                        out@,
                        #[trigger] gather(i as int, self.kid(*node))[k],
                    ) && cloned(
                        value_of(out@, gather(i as int, self.kid(*node))[k])->0,
                        kids@[k],
                    ),
                forall|x: Seq<char>| #[trigger] named(out@, x) ==> named(self.nodes@, x),
                forall|k: int|
                    0 <= k < node.children@.len() && named(
                        self.nodes@,
                        #[trigger] node.children@[k]@,
                    ) ==> named(out@, node.children@[k]@),
            decreases node.children@.len() - i,
        {
            let c = &node.children[i];
            let ghost before = gather(i as int, self.kid(*node));
            match out.get(c.as_str()) {
                Some(v) => {
                    assert(named(self.nodes@, c@));
                    kids.push(v.clone());
                    assert(gather(i + 1, self.kid(*node)) == before + seq![c@]);
                },
                None => {
                    assert(!named(self.nodes@, node.children@[i as int]@));
                    assert(gather(i + 1, self.kid(*node)) =~= before);
                },
            }
            i += 1;
        }
        kids
    }

    /// Folds the tree from the leaves up: gives every node on the way down from the root the
    /// value that `f` computes from the node and from the values at its children. For each of them
    /// `f` is called once, in the order that `fold_order` gives; the calls themselves leave nothing
    /// behind that the contract could speak of.
    pub fn fold<T: Clone, F: Fn(&Node, &[T]) -> T>(&self, f: &F) -> (r: Table<T, false>)
        requires
            self.foldable(),
            forall|n: &Node, k: &[T]| call_requires(*f, (n, k)),
        ensures
            forall|id: Seq<char>| #[trigger] named(r@, id) <==> self.within(id),
            forall|id: Seq<char>| #[trigger] named(r@, id) ==> self.folded_at(*f, r@, id),
    {
        let order = self.fold_order();
        let ghost v = texts(order@);
        let mut out: Table<T, false> = Table::new();
        let mut i: usize = 0;
        while i < order.len()
            invariant
                i <= order.len() == v.len(),
                v == texts(order@),
                self.fold_sequence(v),
                forall|n: &Node, k: &[T]| call_requires(*f, (n, k)),
                self.folding(*f, out@),
                forall|x: Seq<char>| #[trigger] named(out@, x) <==> listed_before(v, i as int, x),
            decreases order.len() - i,
        {
            let id = &order[i];
            let ghost mid = out@;
            proof {
                assert(v[i as int] == id@);
                assert(self.within(v[i as int]));
                self.within_named(id@);
                assert forall|x: Seq<char>| #[trigger] named(out@, x) implies named(self.nodes@, x) by {
                    self.within_named(x);
                }
            }
            let node = self.nodes.get(id.as_str()).unwrap();
            proof {
                assert forall|k: int|
                    0 <= k < node.children@.len() && named(
                        self.nodes@,
                        #[trigger] node.children@[k]@,
                    ) implies named(out@, node.children@[k]@) by {
                    let c = node.children@[k]@;
                    assert(texts(node.children@)[k] == c);
                    assert(self.contains(v[i as int], c));
                    assert(listed_before(v, i as int, c));
                }
                if named(mid, id@) {
                    let j = choose|j: int| 0 <= j < i && #[trigger] v[j] == id@;
                    assert(v[j] != v[i as int]);
                }
            }
            let kids = self.list_kids(node, &out);
            let list = kids.as_slice();
            let value = f(node, list);
            out.insert(id.clone(), value);
            proof {
                assert(self.folded_at(*f, out@, id@)) by {
                    assert forall|k: int| 0 <= k < kids@.len() implies named(
                        out@,
                        #[trigger] self.kids(*node)[k],
                    ) && cloned(value_of(out@, self.kids(*node)[k])->0, kids@[k]) by {
                        let x = self.kids(*node)[k];
                        assert(named(mid, x));
                        assert(x != id@);
                    }
                    assert(call_ensures(*f, (node, list), value_of(out@, id@)->0));
                }
                assert forall|x: Seq<char>| #[trigger] named(mid, x) implies named(out@, x)
                    && value_of(out@, x) == value_of(mid, x) by {
                    assert(x != id@);
                }
                assert forall|x: Seq<char>| #[trigger] named(out@, x) implies self.within(x)
                    && self.folded_at(*f, out@, x) by {
                    if x != id@ {
                        assert(named(mid, x));
                        self.folded_later(*f, mid, out@, x);
                    }
                }
                assert forall|x: Seq<char>| #[trigger] named(out@, x) <==> listed_before(
                    v,
                    i + 1,
                    x,
                ) by {
                    if x == id@ {
                        assert(v[i as int] == x);
                    } else {
                        assert(named(out@, x) <==> named(mid, x));
                    }
                }
            }
            i += 1;
        }
        proof {
            assert forall|id: Seq<char>| #[trigger] named(out@, id) <==> self.within(id) by {
                assert(named(out@, id) <==> listed_before(v, v.len() as int, id));
                assert(v.contains(id) <==> self.within(id));
                if v.contains(id) {
                    let j = choose|j: int| 0 <= j < v.len() && v[j] == id;
                    assert(v[j] == id);
                }
            }
        }
        out
    }

    // ── whether a tree can be folded ───────────────────────────────────────────────────

    proof fn shallow_grows(self, id: Seq<char>, m: nat, n: nat)
        requires
            m <= n,
            self.shallow(id, m),
        ensures
            self.shallow(id, n),
        decreases n,
    {
        match value_of(self.nodes@, id) {
            Some(node) => {
                assert forall|k: int| 0 <= k < node.children@.len() implies self.shallow(
                    #[trigger] node.children@[k]@,
                    (n - 1) as nat,
                ) by {
                    assert(self.shallow(node.children@[k]@, (m - 1) as nat));
                    self.shallow_grows(node.children@[k]@, (m - 1) as nat, (n - 1) as nat);
                }
            },
            None => {},
        }
    }

    /// Whether `ok` says of each node whether every way down from it has fewer than `n` steps.
    spec fn settled(self, ok: Seq<bool>, n: nat) -> bool {
        &&& ok.len() == self.nodes@.len()
        &&& forall|i: int| 0 <= i < ok.len() ==> ok[i] == self.shallow(#[trigger] self.nodes@[i].0, n)
    }

    /// What no longer changes from one step to the next stays.
    proof fn settled_stays(self, ok: Seq<bool>, n: nat, m: nat)
        requires
            in_order(false, self.nodes@),
            0 < n <= m,
            self.settled(ok, n),
            self.settled(ok, n + 1),
        ensures
            self.settled(ok, m),
        decreases m - n,
    {
        if n < m {
            assert forall|i: int| 0 <= i < ok.len() implies ok[i] == self.shallow(
                #[trigger] self.nodes@[i].0,
                n + 2,
            ) by {
                row_unique(false, self.nodes@, i);
                let node = self.nodes@[i].1;
                if ok[i] {
                    assert(self.shallow(self.nodes@[i].0, n));
                    self.shallow_grows(self.nodes@[i].0, n, n + 2);
                } else {
                    let k = choose|k: int|
                        0 <= k < node.children@.len() && !self.shallow(
                            #[trigger] node.children@[k]@,
                            n,
                        );
                    let c = node.children@[k]@;
                    assert(named(self.nodes@, c));
                    let j = row_of(self.nodes@, c)->0;
                    assert(self.nodes@[j].0 == c);
                    assert(!self.shallow(c, n + 1));
                }
            }
            self.settled_stays(ok, n + 1, m);
        }
    }

    fn settle_one(&self, i: usize, ok: &Vec<bool>, later: bool, Ghost(n): Ghost<nat>) -> (r: bool)
        requires
            i < self.nodes@.len(),
            in_order(false, self.nodes@),
            self.settled(ok@, n),
            later == (n > 0),
        ensures
            r == self.shallow(self.nodes@[i as int].0, n + 1),
    {
        proof {
            row_unique(false, self.nodes@, i as int);
        }
        let node = self.nodes.value(i);
        let mut k: usize = 0;
        while k < node.children.len()
            invariant
                k <= node.children.len(),
                i < self.nodes@.len(),
                *node == self.nodes@[i as int].1,
                value_of(self.nodes@, self.nodes@[i as int].0) == Some(*node),
                self.settled(ok@, n),
                later == (n > 0),
                forall|j: int| 0 <= j < k ==> self.shallow(#[trigger] node.children@[j]@, n),
            decreases node.children.len() - k,
        {
            let fine = match self.nodes.find(node.children[k].as_str()) {
                Some(j) => ok[j],
                None => later,
            };
            proof {
                let c = node.children@[k as int]@;
                if named(self.nodes@, c) {
                    let j = row_of(self.nodes@, c)->0;
                    assert(self.nodes@[j].0 == c);
                }
                assert(fine == self.shallow(c, n));
            }
            if !fine {
                return false;
            }
            k += 1;
        }
        true
    }

    /// Whether the way down from the root comes to an end everywhere, so that the tree can be
    /// folded.
    pub fn can_fold(&self) -> (r: bool)
        ensures
            r == self.foldable(),
    {
        self.ends_below(self.root.as_str())
    }

    /// Whether the way down from `id` comes to an end everywhere.
    pub fn ends_below(&self, id: &str) -> (r: bool)
        ensures
            r == exists|n: nat| self.shallow(id@, n),
    {
        let at = self.nodes.find(id);
        let total = self.nodes.len();
        let mut ok: Vec<bool> = Vec::new();
        while ok.len() < total
            invariant
                ok@.len() <= total,
                total == self.nodes@.len(),
                forall|i: int| 0 <= i < ok@.len() ==> !ok@[i],
                unsettled(ok@, ok@.len() as int) == ok@.len(),
            decreases total - ok@.len(),
        {
            let ghost before = ok@;
            ok.push(false);
            proof {
                unsettled_same(before, ok@, before.len() as int);
            }
        }
        let ghost mut n: nat = 0;
        let mut later = false;
        let mut open: usize = total;
        let mut done = false;
        while !done
            invariant
                total == self.nodes@.len(),
                in_order(false, self.nodes@),
                self.settled(ok@, n),
                later == (n > 0),
                open == unsettled(ok@, total as int),
                done ==> n > 0 && self.settled(ok@, n + 1),
            decreases
                (if done { 0int } else { 1int }),
                (if later { 0int } else { 1int }),
                open,
        {
            let ghost before = ok@;
            let mut next: Vec<bool> = Vec::new();
            let mut still: usize = 0;
            let mut same = later;
            let mut i: usize = 0;
            while i < total
                invariant
                    i <= total,
                    total == self.nodes@.len(),
                    before == ok@,
                    in_order(false, self.nodes@),
                    self.settled(ok@, n),
                    later == (n > 0),
                    next@.len() == i,
                    forall|j: int|
                        0 <= j < i ==> next@[j] == self.shallow(
                            #[trigger] self.nodes@[j].0,
                            n + 1,
                        ),
                    forall|j: int| 0 <= j < i ==> (before[j] ==> #[trigger] next@[j]),
                    still == unsettled(next@, i as int),
                    still <= i,
                    still <= unsettled(before, i as int),
                    same ==> later && (forall|j: int| 0 <= j < i ==> next@[j] == before[j]),
                    !same && later ==> still < unsettled(before, i as int),
                decreases total - i,
            {
                let now = self.settle_one(i, &ok, later, Ghost(n));
                proof {
                    if before[i as int] {
                        self.shallow_grows(self.nodes@[i as int].0, n, n + 1);
                    }
                }
                let ghost prior = next@;
                if !now {
                    still += 1;
                }
                if now != ok[i] {
                    same = false;
                }
                next.push(now);
                proof {
                    unsettled_same(prior, next@, i as int);
                }
                i += 1;
            }
            proof {
                if same {
                    assert(next@ =~= before);
                } else {
                    n = n + 1;
                }
            }
            if same {
                done = true;
            } else {
                ok = next;
                open = still;
                later = true;
            }
        }
        let r = match at {
            Some(j) => ok[j],
            None => true,
        };
        proof {
            if !named(self.nodes@, id@) {
                assert(self.shallow(id@, 1));
            } else {
                let j = row_of(self.nodes@, id@)->0;
                assert(self.nodes@[j].0 == id@);
                if r {
                    assert(self.shallow(id@, n));
                }
                if exists|m: nat| self.shallow(id@, m) {
                    let m = choose|m: nat| self.shallow(id@, m);
                    if m <= n {
                        self.shallow_grows(id@, m, n);
                    } else {
                        self.settled_stays(ok@, n, m);
                    }
                }
            }
        }
        r
    }
}

/// How many of the first `n` are not settled.
spec fn unsettled(ok: Seq<bool>, n: int) -> nat
    decreases n,
{
    if n <= 0 {
        0
    } else {
        unsettled(ok, n - 1) + (if ok[n - 1] {
            0nat
        } else {
            1nat
        })
    }
}

proof fn unsettled_same(a: Seq<bool>, b: Seq<bool>, n: int)
    requires
        0 <= n <= a.len(),
        n <= b.len(),
        forall|i: int| 0 <= i < n ==> a[i] == b[i],
    ensures
        unsettled(a, n) == unsettled(b, n),
    decreases n,
{
    if n > 0 {
        unsettled_same(a, b, n - 1);
    }
}

impl Tree {
    // ── what a clean check promises ────────────────────────────────────────────────────

    proof fn up_shift(self, id: Seq<char>, k: nat)
        requires
            self.up(id, 1) is Some,
        ensures
            self.up(id, k + 1) == self.up(self.up(id, 1)->0, k),
        decreases k,
    {
        if k > 0 {
            self.up_shift(id, (k - 1) as nat);
        }
    }

    proof fn up_once(self, id: Seq<char>, a: nat, b: nat)
        requires
            value_of(self.nodes@, self.root@) is Some,
            value_of(self.nodes@, self.root@)->0.parent is None,
            self.up(id, a) == Some(self.root@),
            self.up(id, b) == Some(self.root@),
        ensures
            a == b,
    {
        assert(self.up(id, a + 1) is None);
        assert(self.up(id, b + 1) is None);
        if a < b {
            self.up_stays_lost(id, a + 1, b);
        } else if b < a {
            self.up_stays_lost(id, b + 1, a);
        }
    }

    /// How far `id` is from the root.
    spec fn height(self, id: Seq<char>) -> nat {
        choose|k: nat| #[trigger] self.up(id, k) == Some(self.root@)
    }

    spec fn heights(self, n: int) -> nat
        decreases n,
    {
        if n <= 0 {
            0
        } else {
            self.heights(n - 1) + self.height(self.nodes@[n - 1].0)
        }
    }

    proof fn height_bound(self, n: int, i: int)
        requires
            0 <= i < n,
        ensures
            self.height(self.nodes@[i].0) <= self.heights(n),
        decreases n,
    {
        if i < n - 1 {
            self.height_bound(n - 1, i);
        }
    }

    /// Whether the structure is sound: the root is a node without a parent, and the only one;
    /// every parent, child and dependency is a node; a node is listed by the parent that it
    /// names, and named as parent by the children that it lists; the way up from every node
    /// arrives at the root.
    pub open spec fn sound(self) -> bool {
        &&& named(self.nodes@, self.root@)
        &&& forall|i: int|
            0 <= i < self.nodes@.len() ==> {
                let n = (#[trigger] self.nodes@[i]).1;
                &&& n.parent is None <==> n.id@ == self.root@
                &&& n.parent is Some ==> (match value_of(self.nodes@, n.parent->0@) {
                    Some(q) => texts(q.children@).contains(n.id@),
                    None => false,
                })
                &&& forall|k: int|
                    0 <= k < n.children@.len() ==> (match value_of(
                        self.nodes@,
                        #[trigger] n.children@[k]@,
                    ) {
                        Some(q) => text_opt(q.parent) == Some(n.id@),
                        None => false,
                    })
                &&& forall|k: int|
                    0 <= k < n.depends_on@.len() ==> named(self.nodes@, #[trigger] n.depends_on@[k]@)
                &&& self.rooted(n.id@)
            }
    }

    /// A sound tree without a cycle of dependencies has no violations.
    pub proof fn sound_is_clean(self, errs: Seq<Seq<char>>)
        requires
            self.keyed(),
            in_order(false, self.nodes@),
            self.sound(),
            !self.dep_cyclic(),
            self.violations(errs),
        ensures
            errs.len() == 0,
    {
        let total = self.nodes@.len() as int;
        let r = row_of(self.nodes@, self.root@)->0;
        assert(self.nodes@[r].0 == self.root@);
        assert(self.nodes@[r].1.id@ == self.root@);
        assert forall|i: int| 0 <= i < total implies (#[trigger] (self.link_errors())(i)).len() == 0 by {
            let n = self.nodes@[i].1;
            assert(self.nodes@[i].1.id@ == self.nodes@[i].0);
            assert(self.parent_errors(n).len() == 0);
            assert forall|k: int| 0 <= k < n.children@.len() implies (#[trigger] (self.child_errors(
                n,
            ))(k)).len() == 0 by {
                assert(value_of(self.nodes@, n.children@[k]@) is Some);
            }
            gather_none(n.children@.len() as int, self.child_errors(n));
            assert forall|k: int| 0 <= k < n.depends_on@.len() implies (#[trigger] (self.dep_errors(
                n,
            ))(k)).len() == 0 by {
                assert(named(self.nodes@, n.depends_on@[k]@));
            }
            gather_none(n.depends_on@.len() as int, self.dep_errors(n));
        }
        gather_none(total, self.link_errors());
        assert forall|i: int| 0 <= i < total implies (#[trigger] (self.home_errors())(i)).len() == 0 by {
            let n = self.nodes@[i].1;
            assert(self.rooted(n.id@));
        }
        gather_none(total, self.home_errors());
    }

    /// A tree with no violations is sound, and no chain of its dependencies comes back to
    /// where it began.
    pub proof fn clean_is_sound(self, errs: Seq<Seq<char>>)
        requires
            self.keyed(),
            in_order(false, self.nodes@),
            self.violations(errs),
            errs.len() == 0,
        ensures
            self.sound(),
            !self.dep_cyclic(),
    {
        let total = self.nodes@.len() as int;
        assert(self.structure_errors().len() == 0);
        gather_empty(total, self.link_errors());
        gather_empty(total, self.home_errors());
        assert(named(self.nodes@, self.root@));
        let r = row_of(self.nodes@, self.root@)->0;
        assert forall|i: int| 0 <= i < total implies {
            let n = (#[trigger] self.nodes@[i]).1;
            &&& n.parent is None <==> n.id@ == self.root@
            &&& n.parent is Some ==> (match value_of(self.nodes@, n.parent->0@) {
                Some(q) => texts(q.children@).contains(n.id@),
                None => false,
            })
            &&& forall|k: int|
                0 <= k < n.children@.len() ==> (match value_of(
                    self.nodes@,
                    #[trigger] n.children@[k]@,
                ) {
                    Some(q) => text_opt(q.parent) == Some(n.id@),
                    None => false,
                })
            &&& forall|k: int|
                0 <= k < n.depends_on@.len() ==> named(self.nodes@, #[trigger] n.depends_on@[k]@)
            &&& self.rooted(n.id@)
        } by {
            let n = self.nodes@[i].1;
            row_unique(false, self.nodes@, i);
            assert((self.link_errors())(i).len() == 0);
            assert((self.home_errors())(i).len() == 0);
            assert(self.parent_errors(n).len() == 0);
            gather_empty(n.children@.len() as int, self.child_errors(n));
            gather_empty(n.depends_on@.len() as int, self.dep_errors(n));
            assert forall|k: int| 0 <= k < n.children@.len() implies (match value_of(
                self.nodes@,
                #[trigger] n.children@[k]@,
            ) {
                Some(q) => text_opt(q.parent) == Some(n.id@),
                None => false,
            }) by {
                assert((self.child_errors(n))(k).len() == 0);
            }
            assert forall|k: int| 0 <= k < n.depends_on@.len() implies named(
                self.nodes@,
                #[trigger] n.depends_on@[k]@,
            ) by {
                assert((self.dep_errors(n))(k).len() == 0);
            }
            if n.id@ == self.root@ {
                assert(self.up(n.id@, 0) == Some(self.root@));
            }
        }
    }

    proof fn sound_shallow(self, id: Seq<char>, most: nat)
        requires
            self.keyed(),
            in_order(false, self.nodes@),
            self.sound(),
            named(self.nodes@, id),
            most == self.heights(self.nodes@.len() as int),
        ensures
            self.height(id) <= most,
            self.shallow(id, (most + 1 - self.height(id)) as nat),
        decreases most + 1 - self.height(id),
    {
        let i = row_of(self.nodes@, id)->0;
        assert(0 <= i < self.nodes@.len() && self.nodes@[i].0 == id);
        let n = self.nodes@[i].1;
        row_unique(false, self.nodes@, i);
        self.height_bound(self.nodes@.len() as int, i);
        assert(self.rooted(id));
        let r = row_of(self.nodes@, self.root@)->0;
        assert(0 <= r < self.nodes@.len() && self.nodes@[r].0 == self.root@);
        row_unique(false, self.nodes@, r);
        assert(self.nodes@[r].1.parent is None);
        let h = self.height(id);
        assert forall|k: int| 0 <= k < n.children@.len() implies self.shallow(
            #[trigger] n.children@[k]@,
            (most - h) as nat,
        ) by {
            let c = n.children@[k]@;
            assert(value_of(self.nodes@, c) is Some);
            let j = row_of(self.nodes@, c)->0;
            assert(0 <= j < self.nodes@.len() && self.nodes@[j].0 == c);
            row_unique(false, self.nodes@, j);
            assert(self.up(c, 0) == Some(c));
            assert(self.up(c, 1) == Some(id));
            self.up_shift(c, h);
            assert(self.up(c, h + 1) == Some(self.root@));
            self.up_once(c, h + 1, self.height(c));
            self.height_bound(self.nodes@.len() as int, j);
            self.sound_shallow(c, most);
        }
    }

    /// A tree with no violations can be folded, and the fold gives a value to every node and to
    /// nothing else.
    pub proof fn clean_is_foldable(self, errs: Seq<Seq<char>>)
        requires
            self.keyed(),
            in_order(false, self.nodes@),
            self.violations(errs),
            errs.len() == 0,
        ensures
            self.foldable(),
            forall|id: Seq<char>| #[trigger] named(self.nodes@, id) <==> self.within(id),
    {
        self.clean_is_sound(errs);
        let most = self.heights(self.nodes@.len() as int);
        self.sound_shallow(self.root@, most);
        assert forall|id: Seq<char>| #[trigger] named(self.nodes@, id) <==> self.within(id) by {
            if self.within(id) {
                self.within_named(id);
            }
            if named(self.nodes@, id) {
                let i = row_of(self.nodes@, id)->0;
                assert(0 <= i < self.nodes@.len() && self.nodes@[i].0 == id);
                assert(self.rooted(self.nodes@[i].1.id@));
                let k = choose|k: nat| #[trigger] self.up(id, k) == Some(self.root@);
                self.rooted_within(id, k);
            }
        }
    }

    proof fn rooted_within(self, id: Seq<char>, k: nat)
        requires
            self.keyed(),
            in_order(false, self.nodes@),
            self.sound(),
            named(self.nodes@, id),
            self.up(id, k) == Some(self.root@),
        ensures
            self.within(id),
        decreases k,
    {
        if id == self.root@ {
            assert(self.descent(seq![id]));
        } else {
            let i = row_of(self.nodes@, id)->0;
            assert(0 <= i < self.nodes@.len() && self.nodes@[i].0 == id);
            row_unique(false, self.nodes@, i);
            let n = self.nodes@[i].1;
            assert(n.parent is Some);
            let p = n.parent->0@;
            assert(k > 0);
            assert(self.up(id, 0) == Some(id));
            assert(self.up(id, 1) == Some(p));
            self.up_shift(id, (k - 1) as nat);
            let j = row_of(self.nodes@, p)->0;
            assert(0 <= j < self.nodes@.len() && self.nodes@[j].0 == p);
            self.rooted_within(p, (k - 1) as nat);
            assert(self.contains(p, id));
            self.within_step(p, id);
        }
    }
}

// ── folds with numbers ─────────────────────────────────────────────────────────────────

/// A sum that stops at the largest machine number.
pub open spec fn sum_upto(v: Seq<usize>, n: int) -> int
    decreases n,
{
    if n <= 0 {
        0
    } else {
        crate::moves::capped(sum_upto(v, n - 1) + v[n - 1])
    }
}

/// The largest of the first `n` numbers, or 0.
pub open spec fn max_upto(v: Seq<usize>, n: int) -> int
    decreases n,
{
    if n <= 0 {
        0
    } else if v[n - 1] > max_upto(v, n - 1) {
        v[n - 1] as int
    } else {
        max_upto(v, n - 1)
    }
}

/// A rule that gives a number to a node from the numbers of its children.
#[derive(Clone, Copy, Debug, PartialEq, Eq, Structural)]
pub enum Measure {
    /// How many atoms a node holds; an atom holds itself.
    Atoms,
    /// How deep a node nests; an atom is one deep.
    Depth,
}

/// The number that a rule gives to a node.
pub open spec fn measured(m: Measure, n: Node, kids: Seq<usize>) -> int {
    match m {
        Measure::Atoms => match n.kind {
            Kind::Atom => 1,
            Kind::Composite => sum_upto(kids, kids.len() as int),
        },
        Measure::Depth => match n.kind {
            Kind::Atom => 1,
            Kind::Composite => crate::moves::capped(1 + max_upto(kids, kids.len() as int)),
        },
    }
}

fn measure_node(m: Measure, n: &Node, kids: &[usize]) -> (r: usize)
    ensures
        r == measured(m, *n, kids@),
{
    match m {
        Measure::Atoms => match n.kind {
            Kind::Atom => 1,
            Kind::Composite => {
                let mut total: usize = 0;
                let mut i: usize = 0;
                while i < kids.len()
                    invariant
                        i <= kids.len(),
                        total == sum_upto(kids@, i as int),
                    decreases kids.len() - i,
                {
                    total = crate::moves::add_capped(total, kids[i]);
                    i += 1;
                }
                total
            },
        },
        Measure::Depth => match n.kind {
            Kind::Atom => 1,
            Kind::Composite => {
                let mut most: usize = 0;
                let mut i: usize = 0;
                while i < kids.len()
                    invariant
                        i <= kids.len(),
                        most == max_upto(kids@, i as int),
                    decreases kids.len() - i,
                {
                    if kids[i] > most {
                        most = kids[i];
                    }
                    i += 1;
                }
                crate::moves::add_capped(1, most)
            },
        },
    }
}

impl Tree {
    /// The number that a rule gives to `id`, where every way down from it has fewer than `n`
    /// steps; 0 where it is not a node.
    pub open spec fn measure_at(self, m: Measure, id: Seq<char>, n: nat) -> int
        decreases n, 0int,
    {
        if n == 0 {
            0
        } else {
            match value_of(self.nodes@, id) {
                Some(node) => measured(
                    m,
                    node,
                    self.measure_list(
                        m,
                        self.kids(node),
                        (n - 1) as nat,
                        self.kids(node).len() as int,
                    ),
                ),
                None => 0,
            }
        }
    }

    /// The numbers that a rule gives to the first `k` ids of a list.
    pub open spec fn measure_list(self, m: Measure, ids: Seq<Seq<char>>, n: nat, k: int) -> Seq<
        usize,
    >
        decreases n, k,
    {
        if k <= 0 {
            Seq::empty()
        } else {
            self.measure_list(m, ids, n, k - 1).push(self.measure_at(m, ids[k - 1], n) as usize)
        }
    }

    proof fn measure_list_at(self, m: Measure, ids: Seq<Seq<char>>, n: nat, k: int)
        requires
            0 <= k <= ids.len(),
        ensures
            self.measure_list(m, ids, n, k).len() == k,
            forall|i: int|
                0 <= i < k ==> #[trigger] self.measure_list(m, ids, n, k)[i] == self.measure_at(
                    m,
                    ids[i],
                    n,
                ) as usize,
        decreases k,
    {
        if k > 0 {
            self.measure_list_at(m, ids, n, k - 1);
        }
    }

    /// Whether a table gives every node on the way down from the root the number of a rule.
    pub open spec fn measures(self, m: Measure, rows: Seq<(Seq<char>, usize)>) -> bool {
        forall|id: Seq<char>, n: nat| #[trigger]
            named(rows, id) && #[trigger] self.shallow(id, n) ==> value_of(rows, id)->0
                == self.measure_at(m, id, n)
    }

    proof fn kid_is_child(self, node: Node, i: int) -> (k: int)
        requires
            0 <= i < self.kids(node).len(),
        ensures
            0 <= k < node.children@.len(),
            node.children@[k]@ == self.kids(node)[i],
            named(self.nodes@, self.kids(node)[i]),
    {
        let x = self.kids(node)[i];
        assert(self.kids(node).contains(x));
        gather_contains(node.children@.len() as int, self.kid(node), x);
        let k = choose|k: int|
            0 <= k < node.children@.len() && (#[trigger] (self.kid(node))(k)).contains(x);
        let one = (self.kid(node))(k);
        let j = choose|j: int| 0 <= j < one.len() && one[j] == x;
        k
    }

    proof fn fold_measures<F: Fn(&Node, &[usize]) -> usize>(
        self,
        f: F,
        m: Measure,
        rows: Seq<(Seq<char>, usize)>,
        id: Seq<char>,
        n: nat,
    )
        requires
            forall|x: Seq<char>| #[trigger] named(rows, x) ==> self.folded_at(f, rows, x),
            forall|a: &Node, k: &[usize], r: usize| #[trigger]
                call_ensures(f, (a, k), r) ==> r == measured(m, *a, k@),
            named(rows, id),
            self.shallow(id, n),
        ensures
            value_of(rows, id)->0 == self.measure_at(m, id, n),
        decreases n,
    {
        let node = value_of(self.nodes@, id)->0;
        assert(self.folded_at(f, rows, id));
        let s = choose|s: &[usize]|
            {
                &&& #[trigger] call_ensures(f, (&node, s), value_of(rows, id)->0)
                &&& s@.len() == self.kids(node).len()
                &&& forall|k: int|
                    0 <= k < s@.len() ==> named(rows, #[trigger] self.kids(node)[k]) && cloned(
                        value_of(rows, self.kids(node)[k])->0,
                        s@[k],
                    )
            };
        let want = self.measure_list(
            m,
            self.kids(node),
            (n - 1) as nat,
            self.kids(node).len() as int,
        );
        self.measure_list_at(m, self.kids(node), (n - 1) as nat, self.kids(node).len() as int);
        assert forall|i: int| 0 <= i < s@.len() implies s@[i] == want[i] by {
            let k = self.kid_is_child(node, i);
            let c = self.kids(node)[i];
            assert(self.shallow(node.children@[k]@, (n - 1) as nat));
            assert(named(rows, self.kids(node)[i]));
            self.fold_measures(f, m, rows, c, (n - 1) as nat);
        }
        assert(s@ =~= want);
    }

    /// The number that a rule gives to every node on the way down from the root.
    pub fn measure(&self, m: Measure) -> (r: Table<usize, false>)
        requires
            self.foldable(),
        ensures
            self.measures(m, r@),
            forall|id: Seq<char>| #[trigger] named(r@, id) <==> self.within(id),
    {
        let f = |n: &Node, kids: &[usize]| -> (v: usize)
            ensures
                v == measured(m, *n, kids@),
            { measure_node(m, n, kids) };
        let r = self.fold(&f);
        proof {
            assert forall|id: Seq<char>, n: nat| #[trigger] named(r@, id) && #[trigger] self.shallow(
                id,
                n,
            ) implies value_of(r@, id)->0 == self.measure_at(m, id, n) by {
                self.fold_measures(f, m, r@, id, n);
            }
        }
        r
    }

    /// Whether a number is the one that a rule gives to the root; 0 where the root is not a node.
    pub open spec fn root_measure(self, m: Measure, v: int) -> bool {
        forall|n: nat| self.shallow(self.root@, n) ==> v == #[trigger] self.measure_at(m, self.root@, n)
    }

    /// The number that a rule gives to the root.
    pub fn measure_root(&self, m: Measure) -> (r: usize)
        requires
            self.foldable(),
        ensures
            self.root_measure(m, r as int),
    {
        let t = self.measure(m);
        let found = t.get(self.root.as_str());
        proof {
            if named(self.nodes@, self.root@) {
                assert(self.descent(seq![self.root@]));
                assert(self.within(self.root@));
                assert(named(t@, self.root@));
            }
            if named(t@, self.root@) {
                let p = choose|p: Seq<Seq<char>>| #[trigger]
                    self.descent(p) && p[0] == self.root@ && p.last() == self.root@;
                assert(named(self.nodes@, p[0]));
            }
        }
        match found {
            Some(v) => *v,
            None => 0,
        }
    }
}

proof fn gather_none(n: int, f: spec_fn(int) -> Seq<Seq<char>>)
    requires
        forall|i: int| 0 <= i < n ==> (#[trigger] f(i)).len() == 0,
    ensures
        gather(n, f).len() == 0,
    decreases n,
{
    if n > 0 {
        gather_none(n - 1, f);
        assert(f(n - 1).len() == 0);
    }
}

proof fn gathered_position(n: int, f: spec_fn(int) -> Seq<Seq<char>>, k: int) -> (i: int)
    requires
        0 <= k < gather(n, f).len(),
        forall|i: int| 0 <= i < n ==> (#[trigger] f(i)).len() <= 1,
    ensures
        0 <= i < n,
        gather(i, f).len() == k,
        f(i).len() == 1,
        f(i)[0] == gather(n, f)[k],
    decreases n,
{
    if k < gather(n - 1, f).len() {
        gathered_position(n - 1, f, k)
    } else {
        assert(f(n - 1).len() <= 1);
        n - 1
    }
}

proof fn gathered_prefix(n: int, f: spec_fn(int) -> Seq<Seq<char>>, j: int)
    requires
        0 <= j < n,
        f(j).len() == 1,
    ensures
        gather(j, f).len() < gather(n, f).len(),
        gather(n, f)[gather(j, f).len() as int] == f(j)[0],
    decreases n,
{
    if j < n - 1 {
        gathered_prefix(n - 1, f, j);
    }
}

} // verus!
