//! What is shown of a tree, and what a plan makes of files.
use vstd::prelude::*;

use crate::apply::{new_text, new_texts_from, step_on, steps_on, FaultView};
use crate::laws::tree::way_down;
use crate::model::{Kind, Node};
use crate::moves::{EditView, StepView};
use crate::order::{named, value_of, PathView};
use crate::outline::{atoms_below, atoms_from, shown_kid, shown_kids};
use crate::paths::plain;
use crate::text::{concat_contains, gather_contains, texts};
use crate::tree::Tree;

verus! {

// ── trees ──────────────────────────────────────────────────────────────────────────────

/// The children of a node that are shown are all of them where files are asked for, and otherwise those
/// that are no files.
pub proof fn files_are_shown_where_asked_for(t: Tree, n: Node, files: bool, c: Seq<char>)
    ensures
        shown_kids(t, n, files).contains(c) <==> texts(n.children@).contains(c) && (files || value_of(
            t.nodes@,
            c,
        ) is None || value_of(t.nodes@, c)->0.kind == Kind::Composite),
{
    let f = shown_kid(t, n, files);
    let m = n.children@.len() as int;
    gather_contains(m, f, c);
    if shown_kids(t, n, files).contains(c) {
        let k = choose|k: int| 0 <= k < m && (#[trigger] f(k)).contains(c);
        let found = f(k);
        let j = choose|j: int| 0 <= j < found.len() && found[j] == c;
        assert(texts(n.children@)[k] == c);
    }
    if texts(n.children@).contains(c) && (files || value_of(t.nodes@, c) is None || value_of(
        t.nodes@,
        c,
    )->0.kind == Kind::Composite) {
        let cs = texts(n.children@);
        let k = choose|k: int| 0 <= k < cs.len() && cs[k] == c;
        assert(f(k)[0] == c);
        assert(f(k).contains(c));
    }
}

/// Whether some way down leads from a node to a file.
pub open spec fn leads_to_file(t: Tree, id: Seq<char>, x: Seq<char>) -> bool {
    exists|p: Seq<Seq<char>>| #[trigger] file_way(t, id, x, p)
}

/// Whether `p` is a way down from a node to a file.
pub open spec fn file_way(t: Tree, id: Seq<char>, x: Seq<char>, p: Seq<Seq<char>>) -> bool {
    way_down(t, p) && p[0] == id && p.last() == x && value_of(t.nodes@, x)->0.kind == Kind::Atom
}

proof fn way_longer(t: Tree, id: Seq<char>, c: Seq<char>, x: Seq<char>)
    requires
        value_of(t.nodes@, id) is Some,
        value_of(t.nodes@, id)->0.kind == Kind::Composite,
        texts(value_of(t.nodes@, id)->0.children@).contains(c),
        leads_to_file(t, c, x),
    ensures
        leads_to_file(t, id, x),
{
    let p = choose|p: Seq<Seq<char>>| #[trigger] file_way(t, c, x, p);
    let q = seq![id] + p;
    let n = value_of(t.nodes@, id)->0;
    let cs = texts(n.children@);
    let k = choose|k: int| 0 <= k < cs.len() && cs[k] == c;
    assert(n.children@[k]@ == c);
    assert forall|i: int| 0 <= i < q.len() implies value_of(t.nodes@, #[trigger] q[i]) is Some by {
        if i > 0 {
            assert(q[i] == p[i - 1]);
        }
    }
    assert forall|i: int| 0 <= i < q.len() - 1 implies {
        let m = value_of(t.nodes@, #[trigger] q[i])->0;
        m.kind == Kind::Composite && exists|j: int|
            0 <= j < m.children@.len() && (#[trigger] m.children@[j])@ == q[i + 1]
    } by {
        if i > 0 {
            assert(q[i] == p[i - 1]);
            assert(q[i + 1] == p[i - 1 + 1]);
        } else {
            assert(q[1] == p[0]);
            assert(n.children@[k]@ == q[1]);
        }
    }
    assert(q.last() == p.last());
    assert(file_way(t, id, x, q));
}

proof fn way_shorter(t: Tree, id: Seq<char>, x: Seq<char>) -> (c: Seq<char>)
    requires
        value_of(t.nodes@, id) is Some,
        value_of(t.nodes@, id)->0.kind == Kind::Composite,
        leads_to_file(t, id, x),
    ensures
        texts(value_of(t.nodes@, id)->0.children@).contains(c),
        leads_to_file(t, c, x),
{
    let p = choose|p: Seq<Seq<char>>| #[trigger] file_way(t, id, x, p);
    let n = value_of(t.nodes@, id)->0;
    if p.len() == 1 {
        assert(p[0] == p.last());
    }
    assert(p.len() > 1);
    assert(value_of(t.nodes@, p[0])->0 == n);
    let k = choose|k: int| 0 <= k < n.children@.len() && (#[trigger] n.children@[k])@ == p[1];
    assert(texts(n.children@)[k] == p[1]);
    let q = p.skip(1);
    assert forall|i: int| 0 <= i < q.len() implies value_of(t.nodes@, #[trigger] q[i]) is Some by {
        assert(q[i] == p[i + 1]);
    }
    assert forall|i: int| 0 <= i < q.len() - 1 implies {
        let m = value_of(t.nodes@, #[trigger] q[i])->0;
        m.kind == Kind::Composite && exists|j: int|
            0 <= j < m.children@.len() && (#[trigger] m.children@[j])@ == q[i + 1]
    } by {
        assert(q[i] == p[i + 1]);
        assert(q[i + 1] == p[i + 1 + 1]);
    }
    assert(q[0] == p[1]);
    assert(q.last() == p.last());
    assert(file_way(t, p[1], x, q));
    p[1]
}

proof fn atoms_on(t: Tree, ids: Seq<Seq<char>>, n: nat, k: int, x: Seq<char>)
    requires
        0 <= k <= ids.len(),
        forall|i: int| 0 <= i < ids.len() ==> t.shallow(#[trigger] ids[i], n),
    ensures
        atoms_from(t, ids, n, k).contains(x) <==> exists|i: int|
            k <= i < ids.len() && leads_to_file(t, #[trigger] ids[i], x),
    decreases n, ids.len() - k,
{
    if k < ids.len() {
        atoms_on(t, ids, n, k + 1, x);
        assert(t.shallow(ids[k], n));
        files_below_are_listed(t, ids[k], n, x);
        concat_contains(atoms_from(t, ids, n, k + 1), atoms_below(t, ids[k], n), x);
        if atoms_from(t, ids, n, k + 1).contains(x) {
            let i = choose|i: int| k + 1 <= i < ids.len() && leads_to_file(t, #[trigger] ids[i], x);
            assert(leads_to_file(t, ids[i], x));
        }
    }
}

/// The files below a node are those that some way down leads to from it.
pub proof fn files_below_are_listed(t: Tree, id: Seq<char>, n: nat, x: Seq<char>)
    requires
        t.shallow(id, n),
    ensures
        atoms_below(t, id, n).contains(x) <==> leads_to_file(t, id, x),
    decreases n, 0int,
{
    if value_of(t.nodes@, id) is Some {
        let node = value_of(t.nodes@, id)->0;
        assert(named(t.nodes@, id));
        if node.kind == Kind::Atom {
            let one = seq![id];
            assert(atoms_below(t, id, n) == one);
            if one.contains(x) {
                let k = choose|k: int| 0 <= k < one.len() && one[k] == x;
                assert(file_way(t, id, x, one));
            }
            if leads_to_file(t, id, x) {
                let p = choose|p: Seq<Seq<char>>| #[trigger] file_way(t, id, x, p);
                if p.len() > 1 {
                    assert(value_of(t.nodes@, p[0])->0.kind == Kind::Composite);
                }
                assert(one[0] == x);
            }
        } else {
            let ids = texts(node.children@);
            assert forall|i: int| 0 <= i < ids.len() implies t.shallow(
                #[trigger] ids[i],
                (n - 1) as nat,
            ) by {
                assert(t.shallow(node.children@[i]@, (n - 1) as nat));
            }
            atoms_on(t, ids, (n - 1) as nat, 0, x);
            if atoms_below(t, id, n).contains(x) {
                let i = choose|i: int| 0 <= i < ids.len() && leads_to_file(t, #[trigger] ids[i], x);
                assert(ids.contains(ids[i]));
                way_longer(t, id, ids[i], x);
            }
            if leads_to_file(t, id, x) {
                let c = way_shorter(t, id, x);
                let i = choose|i: int| 0 <= i < ids.len() && ids[i] == c;
                assert(leads_to_file(t, ids[i], x));
            }
        }
    } else if leads_to_file(t, id, x) {
        let p = choose|p: Seq<Seq<char>>| #[trigger] file_way(t, id, x, p);
        assert(value_of(t.nodes@, p[0]) is Some);
    }
}

// ── plans ──────────────────────────────────────────────────────────────────────────────

/// What a plan does to a file are its edits of that file, whichever way the path is spelled.
pub proof fn files_get_their_edits(es: Seq<EditView>, path: Seq<char>, s: StepView)
    ensures
        steps_on(es, path).contains(s) <==> exists|i: int|
            0 <= i < es.len() && plain((#[trigger] es[i]).path) == plain(path) && s.kind == es[i].kind
                && s.line == es[i].line && s.after == es[i].after,
{
    let f = step_on(es, path);
    let n = es.len() as int;
    gather_contains(n, f, s);
    if steps_on(es, path).contains(s) {
        let i = choose|i: int| 0 <= i < n && (#[trigger] f(i)).contains(s);
        let found = f(i);
        let k = choose|k: int| 0 <= k < found.len() && found[k] == s;
        assert(plain(es[i].path) == plain(path));
    }
    if exists|i: int|
        0 <= i < es.len() && plain((#[trigger] es[i]).path) == plain(path) && s.kind == es[i].kind
            && s.line == es[i].line && s.after == es[i].after {
        let i = choose|i: int|
            0 <= i < es.len() && plain((#[trigger] es[i]).path) == plain(path) && s.kind
                == es[i].kind && s.line == es[i].line && s.after == es[i].after;
        assert(f(i)[0] == s);
        assert(f(i).contains(s));
    }
}

/// What the edits of a plan make of a file.
#[verifier::opaque]
pub open spec fn outcome(es: Seq<EditView>, rows: Seq<(Seq<char>, String)>, p: PathView) -> Result<
    Seq<char>,
    FaultView,
> {
    new_text(es, rows, p.path)
}

proof fn texts_step(
    es: Seq<EditView>,
    rows: Seq<(Seq<char>, String)>,
    ps: Seq<PathView>,
    i: int,
)
    requires
        0 <= i < ps.len(),
    ensures
        new_texts_from(es, rows, ps, i) == (match outcome(es, rows, ps[i]) {
            Ok(s) => match new_texts_from(es, rows, ps, i + 1) {
                Ok(rest) => Ok::<Seq<(Seq<char>, Seq<char>)>, FaultView>(
                    seq![(ps[i].path, s)] + rest,
                ),
                Err(f) => Err(f),
            },
            Err(f) => Err(f),
        }),
{
    reveal(outcome);
}

/// Where a plan is carried out, each file that it touches gets the text that its edits make of it;
/// where it is not, the first file that cannot be rewritten is why.
pub proof fn each_file_gets_its_text(
    es: Seq<EditView>,
    rows: Seq<(Seq<char>, String)>,
    ps: Seq<PathView>,
    i: int,
)
    requires
        0 <= i <= ps.len(),
    ensures
        match new_texts_from(es, rows, ps, i) {
            Ok(ts) => ts.len() == ps.len() - i && forall|j: int|
                i <= j < ps.len() ==> ts[j - i].0 == (#[trigger] ps[j]).path && outcome(es, rows, ps[j])
                    == Ok::<Seq<char>, FaultView>(ts[j - i].1),
            Err(f) => exists|k: int| #[trigger] first_fault(es, rows, ps, f, i, k),
        },
    decreases ps.len() - i,
{
    if i < ps.len() {
        each_file_gets_its_text(es, rows, ps, i + 1);
        texts_step(es, rows, ps, i);
        match outcome(es, rows, ps[i]) {
            Ok(s) => match new_texts_from(es, rows, ps, i + 1) {
                Ok(rest) => {
                    let ts = seq![(ps[i].path, s)] + rest;
                    assert forall|j: int| i <= j < ps.len() implies ts[j - i].0 == (
                    #[trigger] ps[j]).path && outcome(es, rows, ps[j]) == Ok::<Seq<char>, FaultView>(
                        ts[j - i].1,
                    ) by {
                        if j > i {
                            assert(ts[j - i] == rest[j - (i + 1)]);
                        }
                    }
                },
                Err(f) => {
                    let k = choose|k: int| #[trigger] first_fault(es, rows, ps, f, i + 1, k);
                    assert(first_fault(es, rows, ps, f, i, k));
                },
            },
            Err(f) => {
                assert(first_fault(es, rows, ps, f, i, i));
            },
        }
    }
}

/// Whether the file at a position is the first from `i` on that cannot be rewritten, for this reason.
pub open spec fn first_fault(
    es: Seq<EditView>,
    rows: Seq<(Seq<char>, String)>,
    ps: Seq<PathView>,
    f: FaultView,
    i: int,
    k: int,
) -> bool {
    &&& i <= k < ps.len()
    &&& outcome(es, rows, ps[k]) == Err::<Seq<char>, FaultView>(f)
    &&& forall|j: int| i <= j < k ==> outcome(es, rows, #[trigger] ps[j]) is Ok
}

} // verus!
