//! What waste is found in a repository, and when it counts as falling behind.
use vstd::prelude::*;

use crate::laws::tree::{files_are_at_the_ends, holds_file};
use crate::lean::{
    candidate, candidates, candidates_of, common, counts_atoms, dup_groups, eligible_upto,
    empty_dir, frequency, hash_groups, hashes, in_repo, kind_count, member_at, members,
    mirrors_upto, redundant, redundant_upto, repo_group, repo_members, reports_structure, repos,
    telling, wasted_upto, CandidateView, DupGroup, DupView, LeanCeilings, LeanReport, MemberView,
    MAX_DF, MIN_LINES, MIN_SHARED,
};
use crate::model::Kind;
use crate::order::{arranged, arranged_contains, named, value_of, Ranked};
use crate::scan::FileFacts;
use crate::text::{gather, gather_contains, texts};
use crate::tree::{Measure, Tree};

verus! {

// ── copies ─────────────────────────────────────────────────────────────────────────────

/// Whether a file has contents with this hash and belongs to this repository.
pub open spec fn is_copy(f: FileFacts, h: Seq<u8>, repo: Seq<char>) -> bool {
    f.hash is Some && f.hash->0@ == h && f.subrepo@ == repo
}

/// A group of copies is the whole of what has one hash within one repository: every file of it is
/// one of those, and every one of those is in it.
pub proof fn groups_are_all_the_copies(fs: Seq<FileFacts>, d: DupView)
    requires
        dup_groups(fs).contains(d),
    ensures
        exists|h: Seq<u8>, repo: Seq<char>|
            {
                &&& forall|x: Seq<char>| #[trigger]
                    d.files.contains(x) <==> exists|i: int|
                        0 <= i < fs.len() && #[trigger] is_copy(fs[i], h, repo) && fs[i].rel@ == x
                &&& #[trigger] copied(fs, h, repo)
            },
{
    let all = gather(hashes(fs).len() as int, hash_groups(fs));
    arranged_contains(all, d);
    gather_contains(hashes(fs).len() as int, hash_groups(fs), d);
    let q = choose|q: int|
        0 <= q < hashes(fs).len() && (#[trigger] (hash_groups(fs))(q)).contains(d);
    let h = hashes(fs)[q].bytes;
    let ms = members(fs, h);
    gather_contains(repos(ms).len() as int, repo_group(ms), d);
    let w = choose|w: int| 0 <= w < repos(ms).len() && (#[trigger] (repo_group(ms))(w)).contains(d);
    let one = (repo_group(ms))(w);
    let k = choose|k: int| 0 <= k < one.len() && one[k] == d;
    let repo = repos(ms)[w];
    let g = repo_members(ms, repo);
    assert forall|x: Seq<char>| #[trigger] d.files.contains(x) <==> exists|i: int|
        0 <= i < fs.len() && #[trigger] is_copy(fs[i], h, repo) && fs[i].rel@ == x by {
        if d.files.contains(x) {
            let j = choose|j: int| 0 <= j < d.files.len() && d.files[j] == x;
            assert(g.contains(g[j]));
            crate::lean::groups_stay_within(fs, h, repo, g[j]);
            let i = choose|i: int|
                0 <= i < fs.len() && (#[trigger] fs[i]).rel@ == g[j].rel && fs[i].subrepo@ == repo
                    && fs[i].hash is Some && fs[i].hash->0@ == h;
            assert(is_copy(fs[i], h, repo));
        }
        if exists|i: int| 0 <= i < fs.len() && #[trigger] is_copy(fs[i], h, repo) && fs[i].rel@ == x {
            let i = choose|i: int|
                0 <= i < fs.len() && #[trigger] is_copy(fs[i], h, repo) && fs[i].rel@ == x;
            let m = MemberView { rel: x, loc: fs[i].lines as usize, repo };
            assert((member_at(fs, h))(i)[0] == m);
            assert((member_at(fs, h))(i).contains(m));
            gather_contains(fs.len() as int, member_at(fs, h), m);
            let a = choose|a: int| 0 <= a < ms.len() && ms[a] == m;
            assert((in_repo(ms, repo))(a)[0] == m);
            assert((in_repo(ms, repo))(a).contains(m));
            gather_contains(ms.len() as int, in_repo(ms, repo), m);
            arranged_contains(gather(ms.len() as int, in_repo(ms, repo)), m);
            let b = choose|b: int| 0 <= b < g.len() && g[b] == m;
            assert(d.files[b] == x);
        }
    }
    assert(g.len() > 1);
    assert(g.contains(g[0]));
    crate::lean::groups_stay_within(fs, h, repo, g[0]);
    let i = choose|i: int|
        0 <= i < fs.len() && (#[trigger] fs[i]).rel@ == g[0].rel && fs[i].subrepo@ == repo
            && fs[i].hash is Some && fs[i].hash->0@ == h;
    assert(is_copy(fs[i], h, repo));
    assert(copied(fs, h, repo));
}

/// Whether some file has this hash and belongs to this repository.
pub open spec fn copied(fs: Seq<FileFacts>, h: Seq<u8>, repo: Seq<char>) -> bool {
    exists|i: int| 0 <= i < fs.len() && #[trigger] is_copy(fs[i], h, repo)
}

/// How many files stand in the first `n` groups.
pub open spec fn grouped_files(gs: Seq<DupGroup>, n: int) -> int
    decreases n,
{
    if n <= 0 {
        0
    } else {
        grouped_files(gs, n - 1) + gs[n - 1].files@.len()
    }
}

/// All copies but one of each group are redundant: the redundant files and the groups together are
/// as many as the files in the groups. Where every file has the same number of lines, that many
/// lines are wasted for each redundant file.
pub proof fn all_but_one_copy_is_redundant(gs: Seq<DupGroup>, n: int, loc: int)
    requires
        0 <= n <= gs.len(),
        forall|i: int| 0 <= i < gs.len() ==> (#[trigger] gs[i]).files@.len() > 0,
        grouped_files(gs, n) <= usize::MAX,
    ensures
        redundant_upto(gs, n) + n == grouped_files(gs, n),
        (forall|i: int| 0 <= i < n ==> (#[trigger] gs[i]).loc == loc) && 0 <= loc && loc
            * grouped_files(gs, n) <= usize::MAX ==> wasted_upto(gs, n) == loc * redundant_upto(
            gs,
            n,
        ),
    decreases n,
{
    if n > 0 {
        assert(gs[n - 1].files@.len() > 0);
        grouped_grow(gs, n - 1);
        all_but_one_copy_is_redundant(gs, n - 1, loc);
        if (forall|i: int| 0 <= i < n ==> (#[trigger] gs[i]).loc == loc) && 0 <= loc && loc
            * grouped_files(gs, n) <= usize::MAX {
            let a = grouped_files(gs, n - 1);
            let b = gs[n - 1].files@.len() as int;
            let r = redundant_upto(gs, n - 1);
            assert(loc * a <= loc * (a + b)) by (nonlinear_arith)
                requires
                    0 <= loc,
                    0 <= a,
                    0 <= b,
            ;
            assert(gs[n - 1].loc == loc);
            let x = redundant(gs[n - 1]);
            assert((x * loc) + loc * r == loc * (r + x)) by (nonlinear_arith);
            assert(x * loc <= loc * (a + b)) by (nonlinear_arith)
                requires
                    0 <= loc,
                    0 <= a,
                    0 <= x <= b,
            ;
            assert(loc * (r + x) <= loc * (a + b)) by (nonlinear_arith)
                requires
                    0 <= loc,
                    r <= a,
                    x <= b,
            ;
            assert(0 <= x * loc) by (nonlinear_arith)
                requires
                    0 <= loc,
                    0 <= x,
            ;
        }
    } else {
        assert(loc * 0 == 0) by (nonlinear_arith);
    }
}

proof fn grouped_grow(gs: Seq<DupGroup>, n: int)
    ensures
        0 <= grouped_files(gs, n),
    decreases n,
{
    if n > 0 {
        grouped_grow(gs, n - 1);
    }
}

// ── falling behind ─────────────────────────────────────────────────────────────────────

/// A report falls behind exactly where it has more redundant files or empty directories than the
/// ceilings allow, or more dead symbols or misplaced files, where both sides were measured.
pub proof fn behind_where_a_ceiling_is_exceeded(c: LeanCeilings, r: LeanReport)
    ensures
        c.exceeded(r).len() == 0 <==> {
            &&& r.redundant_files() <= c.max_dup_files
            &&& r.empty_dirs@.len() <= c.max_empty_dirs
            &&& r.dead_code is Some && c.max_dead is Some ==> r.dead_code->0 <= c.max_dead->0
            &&& r.misplaced is Some && c.max_misplaced is Some ==> r.misplaced->0
                <= c.max_misplaced->0
        },
{
}

/// The directories that a report calls empty are exactly those, the root apart, from which no way
/// down leads to a file; of the nodes that the way down from the root comes by.
pub proof fn empty_directories_hold_no_file(r: LeanReport, t: Tree, i: int, n: nat)
    requires
        reports_structure(r, t),
        0 <= i < t.nodes@.len(),
        t.within(t.nodes@[i].1.id@),
        t.shallow(t.nodes@[i].1.id@, n),
        forall|j: int|
            0 <= j < t.nodes@.len() && (#[trigger] t.nodes@[j]).1.id@ == t.nodes@[i].1.id@ ==> j == i,
    ensures
        texts(r.empty_dirs@).contains(t.nodes@[i].1.id@) <==> t.nodes@[i].1.kind == Kind::Composite
            && t.nodes@[i].1.id@ != t.root@ && !holds_file(t, t.nodes@[i].1.id@),
{
    let atoms = choose|atoms: Seq<(Seq<char>, usize)>| #[trigger]
        counts_atoms(t, atoms) && texts(r.empty_dirs@) == arranged(
            gather(t.nodes@.len() as int, empty_dir(t, atoms)),
        );
    let id = t.nodes@[i].1.id@;
    let one = empty_dir(t, atoms);
    arranged_contains(gather(t.nodes@.len() as int, one), id);
    gather_contains(t.nodes@.len() as int, one, id);
    files_are_at_the_ends(t, id, n);
    assert(named(atoms, id));
    assert(value_of(atoms, id)->0 == t.measure_at(Measure::Atoms, id, n));
    assert(value_of(atoms, id) is Some);
    if texts(r.empty_dirs@).contains(id) {
        let j = choose|j: int| 0 <= j < t.nodes@.len() && (#[trigger] one(j)).contains(id);
        let found = one(j);
        let k = choose|k: int| 0 <= k < found.len() && found[k] == id;
        assert(t.nodes@[j].1.id@ == id);
        assert(j == i);
    }
    if t.nodes@[i].1.kind == Kind::Composite && id != t.root@ && !holds_file(t, id) {
        assert(one(i)[0] == id);
        assert(one(i).contains(id));
    }
}

// ── files that are almost the same ─────────────────────────────────────────────────────

proof fn eligible_are(fs: Seq<FileFacts>, n: int, k: int)
    requires
        0 <= n <= fs.len(),
    ensures
        eligible_upto(fs, n).contains(k) <==> 0 <= k < n && fs[k].shingles@.len() >= MIN_LINES,
        forall|i: int, j: int|
            0 <= i < j < eligible_upto(fs, n).len() ==> #[trigger] eligible_upto(fs, n)[i]
                < #[trigger] eligible_upto(fs, n)[j],
        forall|i: int|
            0 <= i < eligible_upto(fs, n).len() ==> 0 <= #[trigger] eligible_upto(fs, n)[i] < n
                && fs[eligible_upto(fs, n)[i]].shingles@.len() >= MIN_LINES,
    decreases n,
{
    if n > 0 {
        eligible_are(fs, n - 1, k);
        let e = eligible_upto(fs, n - 1);
        if fs[n - 1].shingles@.len() >= MIN_LINES {
            crate::order::pushed_contains(e, n - 1, k);
        }
    }
}

/// The hashes of lines that two files share.
pub open spec fn shared_lines(a: Seq<u64>, b: Seq<u64>) -> Seq<u64> {
    a.filter(|h: u64| b.contains(h))
}

proof fn common_is_shared(a: Seq<u64>, b: Seq<u64>, n: int)
    requires
        0 <= n <= a.len(),
    ensures
        common(a, b, n) == shared_lines(a.take(n), b).len(),
    decreases n,
{
    reveal(Seq::filter);
    if n > 0 {
        common_is_shared(a, b, n - 1);
        assert(a.take(n).drop_last() =~= a.take(n - 1));
        assert(a.take(n).last() == a[n - 1]);
    }
}

/// The positions of the files with enough lines.
pub open spec fn long_files(fs: Seq<FileFacts>) -> Seq<int> {
    eligible_upto(fs, fs.len() as int)
}

/// Whether a line tells something: no more than some of the files with enough lines hold it.
pub open spec fn tells(fs: Seq<FileFacts>, h: u64) -> bool {
    long_files(fs).filter(|k: int| fs[k].shingles@.contains(h)).len() <= MAX_DF
}

proof fn frequency_is(fs: Seq<FileFacts>, es: Seq<int>, h: u64, n: int)
    requires
        0 <= n <= es.len(),
    ensures
        frequency(fs, es, h, n) == es.take(n).filter(|k: int| fs[k].shingles@.contains(h)).len(),
    decreases n,
{
    reveal(Seq::filter);
    if n > 0 {
        frequency_is(fs, es, h, n - 1);
        assert(es.take(n).drop_last() =~= es.take(n - 1));
        assert(es.take(n).last() == es[n - 1]);
    }
}

proof fn telling_is(fs: Seq<FileFacts>, a: Seq<u64>, b: Seq<u64>, n: int)
    requires
        0 <= n <= a.len(),
    ensures
        telling(fs, long_files(fs), a, b, n) == a.take(n).filter(
            |h: u64| b.contains(h) && tells(fs, h),
        ).len(),
    decreases n,
{
    reveal(Seq::filter);
    if n > 0 {
        let es = long_files(fs);
        telling_is(fs, a, b, n - 1);
        frequency_is(fs, es, a[n - 1], es.len() as int);
        assert(es.take(es.len() as int) =~= es);
        assert(a.take(n).drop_last() =~= a.take(n - 1));
        assert(a.take(n).last() == a[n - 1]);
    }
}

/// Whether two files are almost the same: both have enough lines, they belong to one repository,
/// they share enough lines that tell something, and not all lines of either are shared.
pub open spec fn almost_same(fs: Seq<FileFacts>, i: int, j: int) -> bool {
    let a = fs[i].shingles@;
    let b = fs[j].shingles@;
    &&& a.len() >= MIN_LINES
    &&& b.len() >= MIN_LINES
    &&& fs[i].subrepo@ == fs[j].subrepo@
    &&& a.filter(|h: u64| b.contains(h) && tells(fs, h)).len() >= MIN_SHARED
    &&& shared_lines(a, b).len() < a.len() + b.len() - shared_lines(a, b).len()
}

proof fn candidate_found(fs: Seq<FileFacts>, i: int, j: int)
    requires
        0 <= i < j < fs.len(),
        almost_same(fs, i, j),
        fs[i].shingles@.len() + fs[j].shingles@.len() <= usize::MAX,
    ensures
        candidates(fs).contains(
            (CandidateView {
                a: fs[i].rel@,
                b: fs[j].rel@,
                shared: shared_lines(fs[i].shingles@, fs[j].shingles@).len() as int,
                total: fs[i].shingles@.len() + fs[j].shingles@.len() - shared_lines(
                    fs[i].shingles@,
                    fs[j].shingles@,
                ).len(),
            }),
        ),
{
    let es = long_files(fs);
    let n = fs.len() as int;
    eligible_are(fs, n, i);
    eligible_are(fs, n, j);
    let x = choose|x: int| 0 <= x < es.len() && es[x] == i;
    let y = choose|y: int| 0 <= y < es.len() && es[y] == j;
    if y < x {
        assert(es[y] < es[x]);
    }
    assert(x < y);
    let a = fs[i].shingles@;
    let b = fs[j].shingles@;
    common_is_shared(a, b, a.len() as int);
    telling_is(fs, a, b, a.len() as int);
    assert(a.take(a.len() as int) =~= a);
    let k = y - x - 1;
    let one = candidate(fs, es, x);
    let c = one(k)[0];
    assert(one(k).contains(c));
    gather_contains(es.len() - x - 1, one, c);
    assert((candidates_of(fs, es))(x).contains(c));
    gather_contains(es.len() as int, candidates_of(fs, es), c);
}

/// Files that are almost the same are found, with how many lines they share and how many there are
/// in either; and nothing else is.
pub proof fn almost_same_files_are_found(fs: Seq<FileFacts>, c: CandidateView)
    requires
        forall|i: int, j: int|
            0 <= i < j < fs.len() ==> (#[trigger] fs[i]).shingles@.len() + (
            #[trigger] fs[j]).shingles@.len() <= usize::MAX,
    ensures
        candidates(fs).contains(c) <==> exists|i: int, j: int|
            {
                &&& 0 <= i < j < fs.len()
                &&& #[trigger] almost_same(fs, i, j)
                &&& c.a == fs[i].rel@
                &&& c.b == fs[j].rel@
                &&& c.shared == shared_lines(fs[i].shingles@, fs[j].shingles@).len()
                &&& c.total == fs[i].shingles@.len() + fs[j].shingles@.len() - c.shared
            },
{
    if exists|i: int, j: int|
        {
            &&& 0 <= i < j < fs.len()
            &&& #[trigger] almost_same(fs, i, j)
            &&& c.a == fs[i].rel@
            &&& c.b == fs[j].rel@
            &&& c.shared == shared_lines(fs[i].shingles@, fs[j].shingles@).len()
            &&& c.total == fs[i].shingles@.len() + fs[j].shingles@.len() - c.shared
        } {
        let (i, j) = choose|i: int, j: int|
            {
                &&& 0 <= i < j < fs.len()
                &&& #[trigger] almost_same(fs, i, j)
                &&& c.a == fs[i].rel@
                &&& c.b == fs[j].rel@
                &&& c.shared == shared_lines(fs[i].shingles@, fs[j].shingles@).len()
                &&& c.total == fs[i].shingles@.len() + fs[j].shingles@.len() - c.shared
            };
        assert(fs[i].shingles@.len() + fs[j].shingles@.len() <= usize::MAX);
        candidate_found(fs, i, j);
    }
    if candidates(fs).contains(c) {
        let es = long_files(fs);
        gather_contains(es.len() as int, candidates_of(fs, es), c);
        let x = choose|x: int|
            0 <= x < es.len() && (#[trigger] (candidates_of(fs, es))(x)).contains(c);
        let one = candidate(fs, es, x);
        gather_contains(es.len() - x - 1, one, c);
        let k = choose|k: int| 0 <= k < es.len() - x - 1 && (#[trigger] one(k)).contains(c);
        let found = one(k);
        let m = choose|m: int| 0 <= m < found.len() && found[m] == c;
        eligible_are(fs, fs.len() as int, 0);
        let i = es[x];
        let j = es[x + 1 + k];
        assert(i < j);
        let a = fs[i].shingles@;
        let b = fs[j].shingles@;
        assert(fs[i].shingles@.len() + fs[j].shingles@.len() <= usize::MAX);
        common_is_shared(a, b, a.len() as int);
        telling_is(fs, a, b, a.len() as int);
        assert(a.take(a.len() as int) =~= a);
        filter_shorter(a, |h: u64| b.contains(h));
        assert(almost_same(fs, i, j));
    }
}

proof fn filter_shorter(a: Seq<u64>, p: spec_fn(u64) -> bool)
    ensures
        a.filter(p).len() <= a.len(),
    decreases a.len(),
{
    reveal(Seq::filter);
    if a.len() > 0 {
        filter_shorter(a.drop_last(), p);
    }
}

/// What is counted of a kind is how many nodes are of it.
pub proof fn nodes_are_counted(t: Tree, kind: Kind, n: int)
    requires
        0 <= n <= t.nodes@.len(),
    ensures
        kind_count(t, kind, n) == t.nodes@.take(n).filter(
            |r: (Seq<char>, crate::model::Node)| r.1.kind == kind,
        ).len(),
    decreases n,
{
    reveal(Seq::filter);
    if n > 0 {
        nodes_are_counted(t, kind, n - 1);
        let s = t.nodes@.take(n);
        assert(s.drop_last() =~= t.nodes@.take(n - 1));
        assert(s.last() == t.nodes@[n - 1]);
    }
}

/// Whether the files with the hash at a position are in several repositories.
pub open spec fn mirrored(fs: Seq<FileFacts>, i: int) -> bool {
    exists|a: Seq<char>, b: Seq<char>|
        a != b && #[trigger] repos(members(fs, hashes(fs)[i].bytes)).contains(a)
            && #[trigger] repos(members(fs, hashes(fs)[i].bytes)).contains(b)
}

/// What is counted as mirrors is how many hashes have files in several repositories.
pub proof fn mirrors_are_counted(fs: Seq<FileFacts>, n: int)
    requires
        0 <= n <= hashes(fs).len(),
    ensures
        mirrors_upto(fs, n) == Seq::new(n as nat, |i: int| i).filter(|i: int| mirrored(fs, i)).len(),
    decreases n,
{
    reveal(Seq::filter);
    if n > 0 {
        mirrors_are_counted(fs, n - 1);
        let s = Seq::new(n as nat, |i: int| i);
        assert(s.drop_last() =~= Seq::new((n - 1) as nat, |i: int| i));
        assert(s.last() == n - 1);
        let rs = repos(members(fs, hashes(fs)[n - 1].bytes));
        crate::order::canonical_facts(members(fs, hashes(fs)[n - 1].bytes).map_values(|m: MemberView| m.repo));
        if rs.len() > 1 {
            assert(rs.contains(rs[0]) && rs.contains(rs[1]));
            assert(rs[0] != rs[1]) by {
                crate::order::before_irreflexive(rs[0].rank());
            }
        }
        if mirrored(fs, n - 1) {
            let (a, b) = choose|a: Seq<char>, b: Seq<char>|
                a != b && #[trigger] rs.contains(a) && #[trigger] rs.contains(b);
            let x = choose|x: int| 0 <= x < rs.len() && rs[x] == a;
            let y = choose|y: int| 0 <= y < rs.len() && rs[y] == b;
        }
    }
}

} // verus!
