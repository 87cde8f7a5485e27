//! Carrying out a plan: the new text of every file that it touches, all of them or none.
use vstd::prelude::*;

use crate::moves::{
    apply_edits, edit_views, edited, edited_paths, fresh_plan, fresh_plan_applies, in_range,
    list_paths, refused_where_stale, steps, Edit, EditView, MovePlan, StepView, Workspace,
};
use crate::order::{
    all_keys, canonical_facts, in_order, value_of, PathName, PathView, Table,
};
use crate::paths::{plain, same_path};
use crate::text::{gather, gather_contains, lines_of, pieces};

verus! {

/// Why a plan cannot be carried out.
#[derive(Debug, Clone, PartialEq, Eq)]
pub enum PlanFault {
    /// A file that is to be rewritten is not there.
    Missing(String),
    /// A file has changed, and does not have these lines any more.
    Stale(String, Vec<usize>),
}

/// Why a plan cannot be carried out.
pub enum FaultView {
    Missing(Seq<char>),
    Stale(Seq<char>, Seq<usize>),
}

impl View for PlanFault {
    type V = FaultView;

    open spec fn view(&self) -> FaultView {
        match *self {
            PlanFault::Missing(p) => FaultView::Missing(p@),
            PlanFault::Stale(p, ls) => FaultView::Stale(p@, ls@),
        }
    }
}

/// What the edit at a position does to a file, where it is one of that file.
pub open spec fn step_on(es: Seq<EditView>, path: Seq<char>) -> spec_fn(int) -> Seq<StepView> {
    |i: int|
        if plain(es[i].path) == plain(path) {
            seq![StepView { kind: es[i].kind, line: es[i].line, after: es[i].after }]
        } else {
            seq![]
        }
}

/// What a plan does to a file.
pub open spec fn steps_on(es: Seq<EditView>, path: Seq<char>) -> Seq<StepView> {
    gather(es.len() as int, step_on(es, path))
}

/// The new text of a file.
pub open spec fn new_text(es: Seq<EditView>, rows: Seq<(Seq<char>, String)>, path: Seq<char>) -> Result<
    Seq<char>,
    FaultView,
> {
    match value_of(rows, plain(path)) {
        Some(text) => match edited(text@, steps_on(es, path)) {
            Ok(s) => Ok(s),
            Err(ls) => Err(FaultView::Stale(path, ls)),
        },
        None => Err(FaultView::Missing(path)),
    }
}

/// The new texts of files from position `i` on; the first fault where there is one.
pub open spec fn new_texts_from(
    es: Seq<EditView>,
    rows: Seq<(Seq<char>, String)>,
    ps: Seq<PathView>,
    i: int,
) -> Result<Seq<(Seq<char>, Seq<char>)>, FaultView>
    decreases ps.len() - i,
{
    if i < 0 || i >= ps.len() {
        Ok(seq![])
    } else {
        match new_text(es, rows, ps[i].path) {
            Ok(s) => match new_texts_from(es, rows, ps, i + 1) {
                Ok(rest) => Ok(seq![(ps[i].path, s)] + rest),
                Err(f) => Err(f),
            },
            Err(f) => Err(f),
        }
    }
}

/// The new texts of the files that a plan touches, in the order of their paths.
pub open spec fn new_texts(es: Seq<EditView>, rows: Seq<(Seq<char>, String)>) -> Result<
    Seq<(Seq<char>, Seq<char>)>,
    FaultView,
> {
    new_texts_from(es, rows, edited_paths(es), 0)
}

/// The files that a plan touches, in the order of their paths.
pub fn touched_paths(plan: &MovePlan) -> (r: Vec<String>)
    ensures
        r@.len() == edited_paths(edit_views(plan.edits@)).len(),
        forall|i: int|
            0 <= i < r@.len() ==> (#[trigger] r@[i])@ == edited_paths(
                edit_views(plan.edits@),
            )[i].path,
{
    let paths = list_paths(&plan.edits);
    let ghost ps = edited_paths(edit_views(plan.edits@));
    assert(paths@.map_values(|p: PathName| p@).len() == paths@.len());
    let mut r: Vec<String> = Vec::new();
    let mut i: usize = 0;
    while i < paths.len()
        invariant
            i <= paths.len() == ps.len(),
            paths@.map_values(|p: PathName| p@) == ps,
            r@.len() == i,
            forall|k: int| 0 <= k < i ==> (#[trigger] r@[k])@ == ps[k].path,
        decreases paths.len() - i,
    {
        assert(paths@.map_values(|p: PathName| p@)[i as int] == paths@[i as int]@);
        r.push(paths[i].path.clone());
        i += 1;
    }
    r
}

fn rewrite(edits: &Vec<Edit>, path: &str, text: &str) -> (r: Result<String, Vec<usize>>)
    ensures
        match r {
            Ok(s) => edited(text@, steps_on(edit_views(edits@), path@)) == Ok::<
                Seq<char>,
                Seq<usize>,
            >(s@),
            Err(v) => edited(text@, steps_on(edit_views(edits@), path@)) == Err::<
                Seq<char>,
                Seq<usize>,
            >(v@),
        },
{
    let ghost es = edit_views(edits@);
    let mut mine: Vec<&Edit> = Vec::new();
    let mut i: usize = 0;
    while i < edits.len()
        invariant
            i <= edits.len(),
            es == edit_views(edits@),
            steps(mine@) =~= gather(i as int, step_on(es, path@)),
        decreases edits.len() - i,
    {
        assert(es[i as int] == edits@[i as int]@);
        if same_path(edits[i].path.as_str(), path) {
            let ghost before = mine@;
            let e = &edits[i];
            mine.push(e);
            assert(steps(mine@) =~= steps(before).push(
                StepView { kind: e.kind, line: e.line, after: e.after@ },
            ));
        }
        i += 1;
    }
    apply_edits(text, mine.as_slice())
}

/// What a list of paths and texts says.
pub open spec fn text_views(v: Seq<(String, String)>) -> Seq<(Seq<char>, Seq<char>)> {
    v.map_values(|p: (String, String)| (p.0@, p.1@))
}

/// The new texts of the files that a plan touches, from the texts that they have now. Where one
/// cannot be rewritten, none is: a plan that is out of date changes nothing.
pub fn planned_texts(plan: &MovePlan, files: &Table<String, true>) -> (r: Result<
    Vec<(String, String)>,
    PlanFault,
>)
    ensures
        match r {
            Ok(v) => new_texts(edit_views(plan.edits@), files@) == Ok::<
                Seq<(Seq<char>, Seq<char>)>,
                FaultView,
            >(text_views(v@)),
            Err(f) => new_texts(edit_views(plan.edits@), files@) == Err::<
                Seq<(Seq<char>, Seq<char>)>,
                FaultView,
            >(f@),
        },
{
    let ghost es = edit_views(plan.edits@);
    let ghost ps = edited_paths(es);
    let paths = list_paths(&plan.edits);
    assert(paths@.map_values(|p: PathName| p@).len() == paths@.len());
    let mut out: Vec<(String, String)> = Vec::new();
    assert(text_views(out@) =~= seq![]);
    let mut i: usize = 0;
    proof {
        match new_texts(es, files@) {
            Ok(all) => {
                assert(Seq::<(Seq<char>, Seq<char>)>::empty() + all =~= all);
            },
            Err(f) => {},
        }
    }
    while i < paths.len()
        invariant
            i <= paths.len() == ps.len(),
            es == edit_views(plan.edits@),
            paths@.map_values(|p: PathName| p@) == ps,
            ps == edited_paths(es),
            new_texts(es, files@) == match new_texts_from(es, files@, ps, i as int) {
                Ok(rest) => Ok::<Seq<(Seq<char>, Seq<char>)>, FaultView>(text_views(out@) + rest),
                Err(f) => Err::<Seq<(Seq<char>, Seq<char>)>, FaultView>(f),
            },
        decreases paths.len() - i,
    {
        assert(paths@.map_values(|p: PathName| p@)[i as int] == paths@[i as int]@);
        let path = &paths[i].path;
        assert(ps[i as int].path == path@);
        let text = match files.get(path.as_str()) {
            Some(t) => t,
            None => {
                return Err(PlanFault::Missing(path.clone()));
            },
        };
        match rewrite(&plan.edits, path.as_str(), text.as_str()) {
            Ok(s) => {
                let ghost before = text_views(out@);
                let ghost rest = new_texts_from(es, files@, ps, i + 1);
                let pair = (path.clone(), s);
                assert(text_views(out@.push(pair)) =~= before.push((path@, s@)));
                out.push(pair);
                proof {
                    if let Ok(more) = rest {
                        assert(before + (seq![(path@, s@)] + more) =~= before.push((path@, s@))
                            + more);
                    }
                }
            },
            Err(ls) => {
                return Err(PlanFault::Stale(path.clone(), ls));
            },
        }
        i += 1;
    }
    assert(text_views(out@) + seq![] =~= text_views(out@));
    Ok(out)
}

proof fn all_or_none_from(
    es: Seq<EditView>,
    rows: Seq<(Seq<char>, String)>,
    ps: Seq<PathView>,
    i: int,
)
    requires
        0 <= i <= ps.len(),
    ensures
        new_texts_from(es, rows, ps, i) is Ok <==> forall|k: int|
            i <= k < ps.len() ==> new_text(es, rows, (#[trigger] ps[k]).path) is Ok,
        match new_texts_from(es, rows, ps, i) {
            Ok(v) => v.len() == ps.len() - i && forall|k: int|
                i <= k < ps.len() ==> v[k - i] == (
                    (#[trigger] ps[k]).path,
                    new_text(es, rows, ps[k].path)->Ok_0,
                ),
            Err(_) => true,
        },
    decreases ps.len() - i,
{
    if i < ps.len() {
        all_or_none_from(es, rows, ps, i + 1);
        let here = new_text(es, rows, ps[i].path);
        let rest = new_texts_from(es, rows, ps, i + 1);
        if here is Ok && rest is Ok {
            let v = new_texts_from(es, rows, ps, i)->Ok_0;
            assert(v =~= seq![(ps[i].path, here->Ok_0)] + rest->Ok_0);
            assert forall|k: int| i <= k < ps.len() implies v[k - i] == (
                (#[trigger] ps[k]).path,
                new_text(es, rows, ps[k].path)->Ok_0,
            ) by {
                if k > i {
                    assert(v[k - i] == rest->Ok_0[k - (i + 1)]);
                }
            }
        }
    }
}

/// A plan is carried out as a whole or not at all: there are new texts if and only if every file
/// that it touches can be rewritten, and then there is one for each of them.
pub proof fn all_or_none(es: Seq<EditView>, rows: Seq<(Seq<char>, String)>)
    ensures
        new_texts(es, rows) is Ok <==> forall|k: int|
            0 <= k < edited_paths(es).len() ==> new_text(
                es,
                rows,
                (#[trigger] edited_paths(es)[k]).path,
            ) is Ok,
        new_texts(es, rows) is Ok ==> new_texts(es, rows)->Ok_0.len() == edited_paths(es).len(),
{
    all_or_none_from(es, rows, edited_paths(es), 0);
}

proof fn fresh_text(ws: Workspace, from: Seq<char>, to: Seq<char>, k: int)
    requires
        in_order(true, ws.files@),
        all_keys(true, ws.files@),
        forall|k: int|
            0 <= k < ws.files@.len() ==> lines_of((#[trigger] ws.files@[k]).1@).len() < usize::MAX,
        0 <= k < edited_paths(fresh_plan(ws, from, to).edits).len(),
    ensures
        new_text(
            fresh_plan(ws, from, to).edits,
            ws.files@,
            edited_paths(fresh_plan(ws, from, to).edits)[k].path,
        ) is Ok,
{
    let es = fresh_plan(ws, from, to).edits;
    let all = es.map_values(|e: EditView| PathView { path: e.path });
    let p = edited_paths(es)[k];
    let path = p.path;
    canonical_facts(all);
    assert(edited_paths(es).contains(p));
    assert(all.contains(p));
    let i = choose|i: int| 0 <= i < all.len() && all[i] == p;
    assert(es.contains(es[i]) && es[i].path == path);
    fresh_plan_applies(ws, from, to, es[i]);
    let text = value_of(ws.files@, plain(path))->0@;
    let ss = steps_on(es, path);
    let n = pieces(text).len() as int;
    assert(lines_of(text).len() == n);
    assert forall|j: int| 0 <= j < ss.len() implies in_range(#[trigger] ss[j], n) by {
        assert(ss.contains(ss[j]));
        gather_contains(es.len() as int, step_on(es, path), ss[j]);
        let m = choose|m: int|
            0 <= m < es.len() && (#[trigger] (step_on(es, path))(m)).contains(ss[j]);
        assert((step_on(es, path))(m)[0] == ss[j]);
        assert(es.contains(es[m]));
        fresh_plan_applies(ws, from, to, es[m]);
    }
    refused_where_stale(text, ss);
}

/// A fresh plan can be carried out: against the files that it was made from there is a new text
/// for every file that it touches.
pub proof fn fresh_plan_is_carried_out(ws: Workspace, from: Seq<char>, to: Seq<char>)
    requires
        in_order(true, ws.files@),
        all_keys(true, ws.files@),
        forall|k: int|
            0 <= k < ws.files@.len() ==> lines_of((#[trigger] ws.files@[k]).1@).len() < usize::MAX,
    ensures
        new_texts(fresh_plan(ws, from, to).edits, ws.files@) is Ok,
{
    let es = fresh_plan(ws, from, to).edits;
    all_or_none(es, ws.files@);
    assert forall|k: int| 0 <= k < edited_paths(es).len() implies new_text(
        es,
        ws.files@,
        (#[trigger] edited_paths(es)[k]).path,
    ) is Ok by {
        fresh_text(ws, from, to, k);
    }
}

} // verus!
