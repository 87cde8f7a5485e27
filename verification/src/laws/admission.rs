//! When blueprints are admitted, what their locks hold them to, and what is judged.
use vstd::prelude::*;

use crate::admission::{
    bare_paths, blueprint_dir, blueprint_from, blueprint_paths, discovered_errors,
    discovered_findings, failed_witness, in_scope, kept_blueprint, listed_name, listed_names,
    lock_errors, lock_finding, lock_findings, lock_place, pinned_errors, succession_errors,
    Discovered,
};
use crate::blueprint::{Blueprint, CompatibilityPolicy, Lifecycle, WitnessResult};
use crate::finding::{tally, Finding, FindingView, Severity};
use crate::laws::blueprint::{
    gather_none, keeps_port, takes_over_exactly_where_kept, unfaulted_exactly_where_valid, valid,
};
use crate::moves::extension_of;
use crate::order::{arranged_contains, canonical, canonical_facts, PathView};
use crate::shape::{last_result, witness_views, witnesses_refusal, WitnessView};
use crate::text::{at, concat_contains, gather, gather_contains, lines_of, trimmed};

verus! {

// ── locks ──────────────────────────────────────────────────────────────────────────────

/// What a lock holds a blueprint to are the ids of its permanent ports and what its witnesses say.
pub proof fn locks_pin_permanent_ports_and_witnesses(b: Blueprint, id: Seq<char>, w: WitnessView)
    ensures
        b.permanent().contains(id) <==> exists|i: int|
            0 <= i < b.ports@.len() && (#[trigger] b.ports@[i]).id@ == id && b.ports@[i].compatibility
                == CompatibilityPolicy::Permanent,
        b.sorted_witnesses().contains(w) <==> exists|i: int|
            0 <= i < b.witnesses@.len() && (#[trigger] b.witnesses@[i])@ == w,
{
    let f = b.permanent_port();
    let n = b.ports@.len() as int;
    arranged_contains(gather(n, f), id);
    gather_contains(n, f, id);
    if b.permanent().contains(id) {
        let i = choose|i: int| 0 <= i < n && (#[trigger] f(i)).contains(id);
        let found = f(i);
        let k = choose|k: int| 0 <= k < found.len() && found[k] == id;
        assert(b.ports@[i].id@ == id);
    }
    if exists|i: int|
        0 <= i < b.ports@.len() && (#[trigger] b.ports@[i]).id@ == id && b.ports@[i].compatibility
            == CompatibilityPolicy::Permanent {
        let i = choose|i: int|
            0 <= i < b.ports@.len() && (#[trigger] b.ports@[i]).id@ == id && b.ports@[i].compatibility
                == CompatibilityPolicy::Permanent;
        assert(f(i)[0] == id);
        assert(f(i).contains(id));
    }
    let vs = witness_views(b.witnesses@);
    arranged_contains(vs, w);
    if vs.contains(w) {
        let i = choose|i: int| 0 <= i < vs.len() && vs[i] == w;
        assert(b.witnesses@[i]@ == w);
    }
    if exists|i: int| 0 <= i < b.witnesses@.len() && (#[trigger] b.witnesses@[i])@ == w {
        let i = choose|i: int| 0 <= i < b.witnesses@.len() && (#[trigger] b.witnesses@[i])@ == w;
        assert(vs[i] == w);
    }
}

/// Whether the result at a position is the last one with an id.
pub open spec fn last_with_id(rs: Seq<WitnessResult>, id: Seq<char>, k: int) -> bool {
    &&& 0 <= k < rs.len()
    &&& rs[k].id@ == id
    &&& forall|j: int| k < j < rs.len() ==> (#[trigger] rs[j]).id@ != id
}

proof fn last_on(rs: Seq<WitnessResult>, id: Seq<char>, n: int)
    requires
        0 <= n <= rs.len(),
        forall|j: int| n <= j < rs.len() ==> (#[trigger] rs[j]).id@ != id,
    ensures
        match last_result(rs, id, n) {
            Some(r) => exists|k: int| #[trigger] last_with_id(rs, id, k) && rs[k] == r,
            None => forall|k: int| !#[trigger] last_with_id(rs, id, k),
        },
    decreases n,
{
    if n > 0 {
        if rs[n - 1].id@ == id {
            assert(last_with_id(rs, id, n - 1));
        } else {
            last_on(rs, id, n - 1);
        }
    } else {
        assert forall|k: int| !#[trigger] last_with_id(rs, id, k) by {
            if last_with_id(rs, id, k) {
                assert(rs[k].id@ == id);
            }
        }
    }
}

proof fn one_last(rs: Seq<WitnessResult>, id: Seq<char>, k: int, l: int)
    requires
        last_with_id(rs, id, k),
        last_with_id(rs, id, l),
    ensures
        k == l,
{
    if k < l {
        assert(rs[l].id@ != id);
    } else if l < k {
        assert(rs[k].id@ != id);
    }
}

/// Whether a witness stands: it was run, and the last result of it is that it passed.
pub open spec fn stands(rs: Seq<WitnessResult>, id: Seq<char>) -> bool {
    exists|k: int| #[trigger] last_with_id(rs, id, k) && rs[k].passed
}

proof fn all_stand(ws: Seq<crate::blueprint::Witness>, rs: Seq<WitnessResult>, i: int)
    requires
        0 <= i <= ws.len(),
    ensures
        witnesses_refusal(ws, rs, i) is None <==> forall|j: int|
            i <= j < ws.len() ==> stands(rs, (#[trigger] ws[j]).id@),
    decreases ws.len() - i,
{
    if i < ws.len() {
        all_stand(ws, rs, i + 1);
        let id = ws[i].id@;
        last_on(rs, id, rs.len() as int);
        match last_result(rs, id, rs.len() as int) {
            Some(r) => {
                let k = choose|k: int| #[trigger] last_with_id(rs, id, k) && rs[k] == r;
                if stands(rs, id) {
                    let l = choose|l: int| #[trigger] last_with_id(rs, id, l) && rs[l].passed;
                    one_last(rs, id, k, l);
                }
                assert(stands(rs, id) <==> r.passed);
            },
            None => {
                assert(!stands(rs, id));
            },
        }
        if witnesses_refusal(ws, rs, i) is None {
            assert forall|j: int| i <= j < ws.len() implies stands(rs, (#[trigger] ws[j]).id@) by {
                if j > i {
                    assert(i + 1 <= j);
                }
            }
        }
    }
}

/// A blueprint can be locked if and only if it is valid, its lifecycle is locked, and each of its
/// witnesses was run and has passed.
pub proof fn lockable_exactly_where_proven(b: Blueprint, results: Seq<WitnessResult>)
    ensures
        b.lockable(results) <==> valid(b) && b.meta.lifecycle == Lifecycle::Locked && forall|j: int|
            0 <= j < b.witnesses@.len() ==> stands(results, (#[trigger] b.witnesses@[j]).id@),
{
    unfaulted_exactly_where_valid(b);
    all_stand(b.witnesses@, results, 0);
}

// ── admission ──────────────────────────────────────────────────────────────────────────

/// Whether the blueprint at a position is the first that was read with an id.
pub open spec fn first_with_id(items: Seq<Discovered>, id: Seq<char>, k: int) -> bool {
    &&& 0 <= k < items.len()
    &&& read_as(items[k], id)
    &&& forall|j: int| 0 <= j < k ==> !read_as(#[trigger] items[j], id)
}

/// Whether a blueprint could be read and has an id.
pub open spec fn read_as(d: Discovered, id: Seq<char>) -> bool {
    d.loaded is Ok && d.loaded->Ok_0.meta.id@ == id
}

proof fn from_on(items: Seq<Discovered>, id: Seq<char>, i: int)
    requires
        0 <= i <= items.len(),
        forall|j: int| 0 <= j < i ==> !read_as(#[trigger] items[j], id),
    ensures
        match blueprint_from(items, id, i) {
            Some(b) => exists|k: int| #[trigger]
                first_with_id(items, id, k) && items[k].loaded->Ok_0 == b,
            None => forall|k: int| !#[trigger] first_with_id(items, id, k),
        },
    decreases items.len() - i,
{
    if i < items.len() {
        if read_as(items[i], id) {
            assert(first_with_id(items, id, i));
            assert(blueprint_from(items, id, i) == Some(items[i].loaded->Ok_0));
        } else {
            from_on(items, id, i + 1);
            assert(blueprint_from(items, id, i) == blueprint_from(items, id, i + 1));
        }
    } else {
        assert forall|k: int| !#[trigger] first_with_id(items, id, k) by {
            if first_with_id(items, id, k) {
                assert(read_as(items[k], id));
            }
        }
    }
}

/// Whether a blueprint keeps what it takes over: where it supersedes another, the first with that id
/// was found, and every permanent port of it is kept.
pub open spec fn succeeds(items: Seq<Discovered>, b: Blueprint) -> bool {
    b.meta.supersedes is Some ==> exists|k: int|
        {
            let prior = items[k].loaded->Ok_0;
            &&& #[trigger] first_with_id(items, b.meta.supersedes->0@, k)
            &&& forall|i: int|
                0 <= i < prior.ports@.len() && (#[trigger] prior.ports@[i]).compatibility
                    == CompatibilityPolicy::Permanent ==> keeps_port(b, prior.ports@[i])
        }
}

/// Whether a blueprint is what its lock pins, where it is locked, and none of its witnesses failed.
pub open spec fn locked_well(d: Discovered, b: Blueprint) -> bool {
    b.meta.lifecycle == Lifecycle::Locked ==> {
        &&& d.lock is Ok
        &&& d.lock->Ok_0.pins(b)
        &&& forall|k: int| 0 <= k < d.results@.len() ==> (#[trigger] d.results@[k]).passed
    }
}

/// Whether nothing is wrong with a blueprint that was found.
pub open spec fn in_good_order(items: Seq<Discovered>, d: Discovered) -> bool {
    &&& d.loaded is Ok
    &&& valid(d.loaded->Ok_0)
    &&& succeeds(items, d.loaded->Ok_0)
    &&& locked_well(d, d.loaded->Ok_0)
}

proof fn canonical_none(raw: Seq<Seq<char>>)
    ensures
        canonical(raw).len() == 0 <==> raw.len() == 0,
{
    canonical_facts(raw);
    if raw.len() > 0 {
        assert(raw.contains(raw[0]));
    }
    if canonical(raw).len() > 0 {
        assert(canonical(raw).contains(canonical(raw)[0]));
    }
}

proof fn succession_sound(items: Seq<Discovered>, b: Blueprint)
    ensures
        succession_errors(items, b).len() == 0 <==> succeeds(items, b),
{
    if b.meta.supersedes is Some {
        let id = b.meta.supersedes->0@;
        from_on(items, id, 0);
        match blueprint_from(items, id, 0) {
            Some(prior) => {
                let k = choose|k: int| #[trigger]
                    first_with_id(items, id, k) && items[k].loaded->Ok_0 == prior;
                assert(prior.meta.id@ == id);
                takes_over_exactly_where_kept(b, prior);
                canonical_none(b.evolution_errors(prior));
                if succeeds(items, b) {
                    let m = choose|m: int|
                        {
                            let other = items[m].loaded->Ok_0;
                            &&& #[trigger] first_with_id(items, id, m)
                            &&& forall|i: int|
                                0 <= i < other.ports@.len() && (#[trigger] other.ports@[i]).compatibility
                                    == CompatibilityPolicy::Permanent ==> keeps_port(
                                    b,
                                    other.ports@[i],
                                )
                        };
                    if m < k {
                        assert(!read_as(items[m], id));
                    } else if k < m {
                        assert(!read_as(items[k], id));
                    }
                }
            },
            None => {},
        }
    }
}

proof fn locked_sound(d: Discovered, b: Blueprint)
    requires
        valid(b),
    ensures
        pinned_errors(d, b).len() == 0 <==> locked_well(d, b),
{
    if b.meta.lifecycle == Lifecycle::Locked {
        match d.lock {
            Ok(l) => {
                reveal(lock_errors);
                unfaulted_exactly_where_valid(b);
                canonical_none(b.errors() + l.departures(b));
                l.pins_or_departs(b);
                let f = failed_witness(d.results@);
                gather_none(d.results@.len() as int, f);
                if gather(d.results@.len() as int, f).len() == 0 {
                    assert forall|k: int| 0 <= k < d.results@.len() implies (
                    #[trigger] d.results@[k]).passed by {
                        assert(f(k).len() == 0);
                    }
                }
            },
            Err(e) => {},
        }
    }
}

proof fn findings_say(rel: Seq<char>, errs: Seq<Seq<char>>)
    ensures
        lock_findings(rel, errs).len() == 0 <==> errs.len() == 0,
{
    let f = lock_finding(rel, errs);
    gather_none(errs.len() as int, f);
    if errs.len() > 0 {
        assert(f(0).len() == 1);
    }
}

/// Nothing stands against the blueprints of a repository if and only if each could be read, is valid,
/// keeps what it takes over, and is what its lock pins.
pub proof fn admitted_exactly_where_in_order(items: Seq<Discovered>)
    ensures
        gather(items.len() as int, discovered_findings(items)).len() == 0 <==> forall|i: int|
            0 <= i < items.len() ==> in_good_order(items, #[trigger] items[i]),
{
    let f = discovered_findings(items);
    let n = items.len() as int;
    gather_none(n, f);
    assert forall|i: int| 0 <= i < n implies ((#[trigger] f(i)).len() == 0 <==> in_good_order(
        items,
        items[i],
    )) by {
        let d = items[i];
        findings_say(d.rel@, discovered_errors(items, d));
        match d.loaded {
            Ok(b) => {
                canonical_none(b.errors());
                unfaulted_exactly_where_valid(b);
                succession_sound(items, b);
                if valid(b) {
                    locked_sound(d, b);
                }
            },
            Err(e) => {},
        }
    }
    if gather(n, f).len() == 0 {
        assert forall|i: int| 0 <= i < n implies in_good_order(items, #[trigger] items[i]) by {
            assert(f(i).len() == 0);
        }
    }
}

// ── what is found and judged ───────────────────────────────────────────────────────────

/// The blueprints of a repository are the one at its root, where there is one, and every file in the
/// directory for them whose extension is `toml`.
pub proof fn blueprints_are_found(at_root: bool, names: Seq<Seq<char>>, path: Seq<char>)
    ensures
        bare_paths(blueprint_paths(at_root, names)).contains(path) <==> (at_root && path
            == "bonsai.blueprint.toml"@) || exists|i: int|
            0 <= i < names.len() && extension_of(#[trigger] names[i]) == Some(
                seq!['t', 'o', 'm', 'l'],
            ) && path == ".bonsai/blueprints/"@ + names[i],
{
    reveal_strlit("toml");
    assert("toml"@ =~= seq!['t', 'o', 'm', 'l']);
    reveal_strlit(".bonsai/blueprints");
    reveal_strlit(".bonsai/blueprints/");
    reveal_strlit("/");
    assert(blueprint_dir() + "/"@ =~= ".bonsai/blueprints/"@);
    let root: Seq<PathView> = if at_root {
        seq![PathView { path: "bonsai.blueprint.toml"@ }]
    } else {
        seq![]
    };
    let f = kept_blueprint(names);
    let n = names.len() as int;
    let all = root + gather(n, f);
    let v = PathView { path };
    let ps = blueprint_paths(at_root, names);
    arranged_contains(all, v);
    concat_contains(root, gather(n, f), v);
    gather_contains(n, f, v);
    if bare_paths(ps).contains(path) {
        let k = choose|k: int| 0 <= k < ps.len() && bare_paths(ps)[k] == path;
        assert(ps[k] == v);
        assert(ps.contains(v));
        if root.contains(v) {
            let j = choose|j: int| 0 <= j < root.len() && root[j] == v;
        } else {
            let i = choose|i: int| 0 <= i < n && (#[trigger] f(i)).contains(v);
            let found = f(i);
            let j = choose|j: int| 0 <= j < found.len() && found[j] == v;
            assert(extension_of(names[i]) == Some("toml"@));
        }
    }
    if at_root && path == "bonsai.blueprint.toml"@ {
        assert(root[0] == v);
    }
    if exists|i: int|
        0 <= i < names.len() && extension_of(#[trigger] names[i]) == Some("toml"@) && path
            == ".bonsai/blueprints/"@ + names[i] {
        let i = choose|i: int|
            0 <= i < names.len() && extension_of(#[trigger] names[i]) == Some("toml"@) && path
                == ".bonsai/blueprints/"@ + names[i];
        assert(f(i)[0] == v);
        assert(f(i).contains(v));
    }
    if all.contains(v) {
        let k = choose|k: int| 0 <= k < ps.len() && ps[k] == v;
        assert(bare_paths(ps)[k] == path);
    }
}

/// The lock of a blueprint stands beside it: `x.lock.json` for `x.toml`.
pub proof fn locks_stand_beside(stem: Seq<char>)
    ensures
        lock_place(stem + seq!['t', 'o', 'm', 'l']) == stem + "lock.json"@,
{
    reveal_strlit("toml");
    let p = stem + seq!['t', 'o', 'm', 'l'];
    let n = p.len() as int;
    assert(p.subrange(n - 4, n) =~= "toml"@);
    assert(p.take(n - 4) =~= stem);
}

/// The files that an output lists are its lines, without whitespace around them, but for blank ones.
pub proof fn outputs_list_names(output: Seq<char>, x: Seq<char>)
    ensures
        listed_names(None).len() == 0,
        listed_names(Some(output)).contains(x) <==> x.len() > 0 && exists|i: int|
            0 <= i < lines_of(output).len() && trimmed(#[trigger] lines_of(output)[i]) == x,
{
    let ls = lines_of(output);
    let f = listed_name(ls);
    let n = ls.len() as int;
    gather_contains(n, f, x);
    if gather(n, f).contains(x) {
        let i = choose|i: int| 0 <= i < n && (#[trigger] f(i)).contains(x);
        let found = f(i);
        let k = choose|k: int| 0 <= k < found.len() && found[k] == x;
        assert(trimmed(lines_of(output)[i]) == x);
    }
    if x.len() > 0 && exists|i: int| 0 <= i < n && trimmed(#[trigger] lines_of(output)[i]) == x {
        let i = choose|i: int| 0 <= i < n && trimmed(#[trigger] lines_of(output)[i]) == x;
        assert(f(i)[0] == x);
        assert(f(i).contains(x));
    }
}

/// Where only changed files are judged, a finding on another file is judged if and only if its rule
/// speaks of the repository as a whole.
pub proof fn scope_keeps_what_is_global(files: Seq<Seq<char>>, f: FindingView)
    ensures
        in_scope(None, f),
        files.contains(f.location.file) ==> in_scope(Some(files), f),
        !files.contains(f.location.file) ==> (in_scope(Some(files), f) <==> f.rule
            == "tree-invariant"@ || f.rule == "leanness-ratchet"@ || f.rule == "blueprint-lock"@
            || f.rule == "abstraction-layers"@ || f.rule == "abstraction-depth"@),
{
    let all = crate::admission::repo_wide();
    assert(all[0] == "tree-invariant"@ && all[1] == "leanness-ratchet"@ && all[2]
        == "blueprint-lock"@ && all[3] == "abstraction-layers"@ && all[4] == "abstraction-depth"@);
    if all.contains(f.rule) {
        let k = choose|k: int| 0 <= k < all.len() && all[k] == f.rule;
    }
}

/// What is counted of a severity is how many findings have it.
pub proof fn findings_are_counted(fs: Seq<Finding>, s: Severity, n: int)
    requires
        0 <= n <= fs.len(),
    ensures
        tally(fs, s, n) == fs.take(n).filter(|f: Finding| f.severity == s).len(),
    decreases n,
{
    reveal(Seq::filter);
    if n > 0 {
        findings_are_counted(fs, s, n - 1);
        let t = fs.take(n);
        assert(t.drop_last() =~= fs.take(n - 1));
        assert(t.last() == fs[n - 1]);
    }
}

} // verus!
