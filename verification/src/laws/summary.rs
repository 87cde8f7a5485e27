//! What is reported on how lean a repository is.
use vstd::prelude::*;

use crate::clones::CloneGroup;
use crate::finding::{FindingView, LocationView};
use crate::lean::LeanReport;
use crate::summary::{
    clone_finding, copy_finding, dead_finding, empty_finding, lean_findings_of, near_finding,
    of_rule, other_copy, other_site, signal_findings, still_deferred, stray_finding, tangle_finding,
    GraphSignals, NearPair,
};
use crate::text::{concat_contains, gather, gather_contains, starts, texts};

verus! {

proof fn one_each<T>(n: int, f: spec_fn(int) -> Seq<T>)
    requires
        0 <= n,
        forall|i: int| 0 <= i < n ==> (#[trigger] f(i)).len() == 1,
    ensures
        gather(n, f).len() == n,
    decreases n,
{
    if n > 0 {
        one_each(n - 1, f);
        assert(f(n - 1).len() == 1);
    }
}

proof fn six<T>(a: Seq<T>, b: Seq<T>, c: Seq<T>, d: Seq<T>, e: Seq<T>, f: Seq<T>, x: T)
    ensures
        (a + b + c + d + e + f).contains(x) <==> a.contains(x) || b.contains(x) || c.contains(x)
            || d.contains(x) || e.contains(x) || f.contains(x),
        (a + b + c + d + e + f).len() == a.len() + b.len() + c.len() + d.len() + e.len() + f.len(),
{
    concat_contains(a, b, x);
    concat_contains(a + b, c, x);
    concat_contains(a + b + c, d, x);
    concat_contains(a + b + c + d, e, x);
    concat_contains(a + b + c + d + e, f, x);
}

proof fn lean_parts(
    forgotten: Seq<FindingView>,
    clones: Seq<CloneGroup>,
    r: LeanReport,
    near: Seq<NearPair>,
    signals: Option<GraphSignals>,
    x: FindingView,
)
    ensures
        lean_findings_of(forgotten, clones, r, near, signals).contains(x) <==> {
            ||| forgotten.contains(x)
            ||| gather(clones.len() as int, clone_finding(clones)).contains(x)
            ||| gather(r.dup_groups@.len() as int, copy_finding(r.dup_groups@)).contains(x)
            ||| gather(near.len() as int, near_finding(near)).contains(x)
            ||| gather(r.empty_dirs@.len() as int, empty_finding(texts(r.empty_dirs@))).contains(x)
            ||| signal_findings(signals).contains(x)
        },
{
    six(
        forgotten,
        gather(clones.len() as int, clone_finding(clones)),
        gather(r.dup_groups@.len() as int, copy_finding(r.dup_groups@)),
        gather(near.len() as int, near_finding(near)),
        gather(r.empty_dirs@.len() as int, empty_finding(texts(r.empty_dirs@))),
        signal_findings(signals),
        x,
    );
}

/// Copied functions are reported at the first of them, with all the others as related places, and
/// copied files likewise.
pub proof fn copies_are_reported(
    forgotten: Seq<FindingView>,
    clones: Seq<CloneGroup>,
    r: LeanReport,
    near: Seq<NearPair>,
    signals: Option<GraphSignals>,
    i: int,
    k: int,
)
    ensures
        0 <= i < clones.len() && 0 < k < clones[i].sites@.len() ==> exists|x: FindingView|
            {
                &&& #[trigger] lean_findings_of(forgotten, clones, r, near, signals).contains(x)
                &&& x.rule == "clone-function"@
                &&& x.location.file == clones[i].sites@[0].0@
                &&& x.location.line == Some(clones[i].sites@[0].2)
                &&& x.related.len() == clones[i].sites@.len() - 1
                &&& x.related.contains(
                    LocationView {
                        file: clones[i].sites@[k].0@,
                        line: Some(clones[i].sites@[k].2),
                    },
                )
            },
        0 <= i < r.dup_groups@.len() && 0 < k < r.dup_groups@[i].files@.len() ==> exists|x: FindingView|
            {
                &&& #[trigger] lean_findings_of(forgotten, clones, r, near, signals).contains(x)
                &&& x.rule == "duplicate"@
                &&& x.location.file == r.dup_groups@[i].files@[0]@
                &&& x.related.len() == r.dup_groups@[i].files@.len() - 1
                &&& x.related.contains(LocationView { file: r.dup_groups@[i].files@[k]@, line: None })
            },
{
    let all = lean_findings_of(forgotten, clones, r, near, signals);
    if 0 <= i < clones.len() && 0 < k < clones[i].sites@.len() {
        let f = clone_finding(clones);
        let x = f(i)[0];
        assert(f(i).contains(x));
        gather_contains(clones.len() as int, f, x);
        lean_parts(forgotten, clones, r, near, signals, x);
        let o = other_site(clones[i]);
        let n = clones[i].sites@.len() - 1;
        one_each(n, o);
        let l = LocationView { file: clones[i].sites@[k].0@, line: Some(clones[i].sites@[k].2) };
        assert(o(k - 1)[0] == l);
        assert(o(k - 1).contains(l));
        gather_contains(n, o, l);
        assert(all.contains(x));
    }
    if 0 <= i < r.dup_groups@.len() && 0 < k < r.dup_groups@[i].files@.len() {
        let f = copy_finding(r.dup_groups@);
        let x = f(i)[0];
        assert(f(i).contains(x));
        gather_contains(r.dup_groups@.len() as int, f, x);
        lean_parts(forgotten, clones, r, near, signals, x);
        let o = other_copy(r.dup_groups@[i]);
        let n = r.dup_groups@[i].files@.len() - 1;
        one_each(n, o);
        let l = LocationView { file: r.dup_groups@[i].files@[k]@, line: None };
        assert(o(k - 1)[0] == l);
        assert(o(k - 1).contains(l));
        gather_contains(n, o, l);
        assert(all.contains(x));
    }
}

/// Files that are nearly the same, and empty directories, are reported.
pub proof fn waste_is_reported(
    forgotten: Seq<FindingView>,
    clones: Seq<CloneGroup>,
    r: LeanReport,
    near: Seq<NearPair>,
    signals: Option<GraphSignals>,
    i: int,
)
    ensures
        0 <= i < near.len() ==> exists|x: FindingView|
            {
                &&& #[trigger] lean_findings_of(forgotten, clones, r, near, signals).contains(x)
                &&& x.rule == "near-duplicate"@
                &&& x.location.file == near[i].a@
                &&& x.related == seq![LocationView { file: near[i].b@, line: None }]
            },
        0 <= i < r.empty_dirs@.len() ==> exists|x: FindingView|
            {
                &&& #[trigger] lean_findings_of(forgotten, clones, r, near, signals).contains(x)
                &&& x.rule == "empty-dir"@
                &&& x.location.file == r.empty_dirs@[i]@
            },
{
    let all = lean_findings_of(forgotten, clones, r, near, signals);
    if 0 <= i < near.len() {
        let f = near_finding(near);
        let x = f(i)[0];
        assert(f(i).contains(x));
        gather_contains(near.len() as int, f, x);
        lean_parts(forgotten, clones, r, near, signals, x);
        assert(all.contains(x));
    }
    if 0 <= i < r.empty_dirs@.len() {
        let f = empty_finding(texts(r.empty_dirs@));
        let x = f(i)[0];
        assert(f(i).contains(x));
        gather_contains(r.empty_dirs@.len() as int, f, x);
        lean_parts(forgotten, clones, r, near, signals, x);
        assert(all.contains(x));
    }
}

/// What a code graph tells is reported: a symbol that nothing uses on its line, counted from one, a
/// group of files that depend on each other at the first of them, and a file that belongs elsewhere.
pub proof fn signals_are_reported(
    forgotten: Seq<FindingView>,
    clones: Seq<CloneGroup>,
    r: LeanReport,
    near: Seq<NearPair>,
    s: GraphSignals,
    i: int,
)
    ensures
        0 <= i < s.dead@.len() && 0 <= s.dead@[i].def.sl < i32::MAX ==> exists|x: FindingView|
            {
                &&& #[trigger] lean_findings_of(forgotten, clones, r, near, Some(s)).contains(x)
                &&& x.rule == "dead-code"@
                &&& x.location.file == s.dead@[i].file@
                &&& x.location.line == Some((s.dead@[i].def.sl + 1) as u32)
            },
        0 <= i < s.cycles@.len() && s.cycles@[i]@.len() > 0 ==> exists|x: FindingView|
            {
                &&& #[trigger] lean_findings_of(forgotten, clones, r, near, Some(s)).contains(x)
                &&& x.rule == "structure-cycle"@
                &&& x.location.file == s.cycles@[i]@[0]@
            },
        0 <= i < s.misplaced@.len() ==> exists|x: FindingView|
            {
                &&& #[trigger] lean_findings_of(forgotten, clones, r, near, Some(s)).contains(x)
                &&& x.rule == "misplaced"@
                &&& x.location.file == s.misplaced@[i].file@
            },
{
    let all = lean_findings_of(forgotten, clones, r, near, Some(s));
    let a = gather(s.dead@.len() as int, dead_finding(s.dead@));
    let b = gather(s.cycles@.len() as int, tangle_finding(crate::links::groups(s.cycles@)));
    let c = gather(s.misplaced@.len() as int, stray_finding(s.misplaced@));
    if 0 <= i < s.dead@.len() && 0 <= s.dead@[i].def.sl < i32::MAX {
        let f = dead_finding(s.dead@);
        let x = f(i)[0];
        assert(f(i).contains(x));
        gather_contains(s.dead@.len() as int, f, x);
        concat_contains(a, b, x);
        concat_contains(a + b, c, x);
        lean_parts(forgotten, clones, r, near, Some(s), x);
        assert(all.contains(x));
    }
    if 0 <= i < s.cycles@.len() && s.cycles@[i]@.len() > 0 {
        let f = tangle_finding(crate::links::groups(s.cycles@));
        let x = f(i)[0];
        assert(f(i).contains(x));
        gather_contains(s.cycles@.len() as int, f, x);
        concat_contains(a, b, x);
        concat_contains(a + b, c, x);
        lean_parts(forgotten, clones, r, near, Some(s), x);
        assert(all.contains(x));
    }
    if 0 <= i < s.misplaced@.len() {
        let f = stray_finding(s.misplaced@);
        let x = f(i)[0];
        assert(f(i).contains(x));
        gather_contains(s.misplaced@.len() as int, f, x);
        concat_contains(a, b, x);
        concat_contains(a + b, c, x);
        lean_parts(forgotten, clones, r, near, Some(s), x);
        assert(all.contains(x));
    }
}

/// As many findings are reported as there are things to report: everything once.
pub proof fn everything_is_reported_once(
    forgotten: Seq<FindingView>,
    clones: Seq<CloneGroup>,
    r: LeanReport,
    near: Seq<NearPair>,
    signals: Option<GraphSignals>,
    x: FindingView,
)
    ensures
        lean_findings_of(forgotten, clones, r, near, signals).len() == forgotten.len() + clones.len()
            + r.dup_groups@.len() + near.len() + r.empty_dirs@.len() + (match signals {
            Some(s) => s.dead@.len() + s.cycles@.len() + s.misplaced@.len(),
            None => 0,
        }),
        forgotten.contains(x) ==> lean_findings_of(forgotten, clones, r, near, signals).contains(x),
{
    lean_parts(forgotten, clones, r, near, signals, x);
    six(
        forgotten,
        gather(clones.len() as int, clone_finding(clones)),
        gather(r.dup_groups@.len() as int, copy_finding(r.dup_groups@)),
        gather(near.len() as int, near_finding(near)),
        gather(r.empty_dirs@.len() as int, empty_finding(texts(r.empty_dirs@))),
        signal_findings(signals),
        x,
    );
    one_each(clones.len() as int, clone_finding(clones));
    one_each(r.dup_groups@.len() as int, copy_finding(r.dup_groups@));
    one_each(near.len() as int, near_finding(near));
    one_each(r.empty_dirs@.len() as int, empty_finding(texts(r.empty_dirs@)));
    match signals {
        Some(s) => {
            one_each(s.dead@.len() as int, dead_finding(s.dead@));
            one_each(s.cycles@.len() as int, tangle_finding(crate::links::groups(s.cycles@)));
            one_each(s.misplaced@.len() as int, stray_finding(s.misplaced@));
        },
        None => {},
    }
}

/// What is counted of a rule is how many findings are of it.
pub proof fn rules_are_counted(fs: Seq<FindingView>, rule: Seq<char>, n: int)
    requires
        0 <= n <= fs.len(),
    ensures
        of_rule(fs, rule, n) == fs.take(n).filter(|f: FindingView| f.rule == rule).len(),
    decreases n,
{
    reveal(Seq::filter);
    if n > 0 {
        rules_are_counted(fs, rule, n - 1);
        let t = fs.take(n);
        assert(t.drop_last() =~= fs.take(n - 1));
        assert(t.last() == fs[n - 1]);
    }
}

/// Once a code graph was read, nothing of what it measures is left as unmeasured, and everything else
/// is.
pub proof fn only_the_measured_is_taken_off(ds: Seq<Seq<char>>, d: Seq<char>)
    ensures
        gather(ds.len() as int, still_deferred(ds)).contains(d) <==> ds.contains(d) && !starts(
            d,
            seq!['d', 'e', 'a', 'd', '-', 'c', 'o', 'd', 'e'],
        ) && !starts(d, "misplacement"@),
{
    reveal_strlit("dead-code");
    assert("dead-code"@ =~= seq!['d', 'e', 'a', 'd', '-', 'c', 'o', 'd', 'e']);
    let f = still_deferred(ds);
    let n = ds.len() as int;
    gather_contains(n, f, d);
    if gather(n, f).contains(d) {
        let i = choose|i: int| 0 <= i < n && (#[trigger] f(i)).contains(d);
        let found = f(i);
        let k = choose|k: int| 0 <= k < found.len() && found[k] == d;
        assert(ds[i] == d);
    }
    if ds.contains(d) && !starts(d, "dead-code"@) && !starts(d, "misplacement"@) {
        let i = choose|i: int| 0 <= i < ds.len() && ds[i] == d;
        assert(f(i)[0] == d);
        assert(f(i).contains(d));
    }
}

} // verus!
