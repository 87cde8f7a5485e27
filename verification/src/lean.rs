//! How lean a repository is: files that are copies of others, directories that hold nothing,
//! code that nothing uses, and files that are almost the same.
use std::collections::HashMap;
use vstd::prelude::*;

use crate::model::Kind;
use crate::moves::{add_capped, capped, Workspace};
use crate::order::{
    arrange, arranged, arranged_mapped, canon, canonical, canonical_mapped, falling_key,
    falling_rank, name_key, name_rank, named, number_key, number_rank, sort_dedup, sort_texts,
    value_of, Keyed, Ranked,
};
use crate::scan::{FileFacts, Scan};
use crate::scip::{dead_at, lists_misplaced, roots_of, CodeGraph};
use crate::text::{cat4, dec, decimal_usize, gather, gather_contains, put, same, texts};
use crate::tree::{Measure, Tree};

verus! {

/// Files with the same contents.
#[derive(Debug, Clone)]
pub struct DupGroup {
    pub files: Vec<String>,
    /// How many lines each of them has.
    pub loc: usize,
}

/// Files with the same contents.
#[verifier::ext_equal]
pub struct DupView {
    pub files: Seq<Seq<char>>,
    pub loc: usize,
}

impl View for DupGroup {
    type V = DupView;

    open spec fn view(&self) -> DupView {
        DupView { files: texts(self.files@), loc: self.loc }
    }
}

impl Ranked for DupView {
    open spec fn rank(&self) -> Seq<i64> {
        falling_rank(self.files.len() as int)
    }
}

impl Ranked for DupGroup {
    open spec fn rank(&self) -> Seq<i64> {
        falling_rank(self.files@.len() as int)
    }
}

impl Keyed for DupGroup {
    fn key(&self) -> (r: Vec<i64>) {
        falling_key(self.files.len())
    }
}

/// The views of a list of groups.
pub open spec fn dup_views(v: Seq<DupGroup>) -> Seq<DupView> {
    v.map_values(|g: DupGroup| g@)
}

// ── copies ─────────────────────────────────────────────────────────────────────────────

/// A hash, ordered by its bytes.
#[verifier::ext_equal]
pub struct HashView {
    pub bytes: Seq<u8>,
}

impl Ranked for HashView {
    open spec fn rank(&self) -> Seq<i64> {
        self.bytes.map_values(|b: u8| b as i64)
    }
}

struct HashKey {
    bytes: [u8; 32],
}

impl View for HashKey {
    type V = HashView;

    closed spec fn view(&self) -> HashView {
        HashView { bytes: self.bytes@ }
    }
}

impl Ranked for HashKey {
    closed spec fn rank(&self) -> Seq<i64> {
        self.bytes@.map_values(|b: u8| b as i64)
    }
}

impl Keyed for HashKey {
    fn key(&self) -> (r: Vec<i64>) {
        let mut k: Vec<i64> = Vec::new();
        let mut i: usize = 0;
        while i < 32
            invariant
                i <= 32,
                k@ =~= self.bytes@.map_values(|b: u8| b as i64).take(i as int),
            decreases 32 - i,
        {
            k.push(self.bytes[i] as i64);
            i += 1;
        }
        assert(k@ =~= self.bytes@.map_values(|b: u8| b as i64));
        k
    }
}

/// The hash of the file at a position, where it has one.
pub open spec fn hash_at(fs: Seq<FileFacts>) -> spec_fn(int) -> Seq<HashView> {
    |i: int|
        match fs[i].hash {
            Some(h) => seq![(HashView { bytes: h@ })],
            None => seq![],
        }
}

/// The hashes of files, each once, in order.
pub open spec fn hashes(fs: Seq<FileFacts>) -> Seq<HashView> {
    canonical(gather(fs.len() as int, hash_at(fs)))
}

/// A file among those with the same contents.
#[verifier::ext_equal]
pub struct MemberView {
    pub rel: Seq<char>,
    pub loc: usize,
    pub repo: Seq<char>,
}

impl Ranked for MemberView {
    open spec fn rank(&self) -> Seq<i64> {
        name_rank(false, self.rel).push((-1) as i64) + number_rank(self.loc as int)
    }
}

struct Member {
    rel: String,
    loc: usize,
    repo: String,
}

impl View for Member {
    type V = MemberView;

    closed spec fn view(&self) -> MemberView {
        MemberView { rel: self.rel@, loc: self.loc, repo: self.repo@ }
    }
}

impl Ranked for Member {
    closed spec fn rank(&self) -> Seq<i64> {
        name_rank(false, self.rel@).push((-1) as i64) + number_rank(self.loc as int)
    }
}

impl Keyed for Member {
    fn key(&self) -> (r: Vec<i64>) {
        let mut k = name_key(false, self.rel.as_str());
        k.push(-1);
        let mut n = number_key(self.loc);
        k.append(&mut n);
        k
    }
}

spec fn member_views(v: Seq<Member>) -> Seq<MemberView> {
    v.map_values(|m: Member| m@)
}

/// The file at a position, where it has this hash.
pub open spec fn member_at(fs: Seq<FileFacts>, h: Seq<u8>) -> spec_fn(int) -> Seq<MemberView> {
    |i: int|
        if fs[i].hash is Some && fs[i].hash->0@ == h {
            seq![
                (MemberView { rel: fs[i].rel@, loc: fs[i].lines as usize, repo: fs[i].subrepo@ }),
            ]
        } else {
            seq![]
        }
}

/// The files with this hash.
pub open spec fn members(fs: Seq<FileFacts>, h: Seq<u8>) -> Seq<MemberView> {
    gather(fs.len() as int, member_at(fs, h))
}

/// The repositories of files, each once, in order.
pub open spec fn repos(ms: Seq<MemberView>) -> Seq<Seq<char>> {
    canonical(ms.map_values(|m: MemberView| m.repo))
}

/// The file at a position, where it belongs to this repository.
pub open spec fn in_repo(ms: Seq<MemberView>, repo: Seq<char>) -> spec_fn(int) -> Seq<MemberView> {
    |i: int|
        if ms[i].repo == repo {
            seq![ms[i]]
        } else {
            seq![]
        }
}

/// The files of a repository, by path.
pub open spec fn repo_members(ms: Seq<MemberView>, repo: Seq<char>) -> Seq<MemberView> {
    arranged(gather(ms.len() as int, in_repo(ms, repo)))
}

/// The group of the files of the repository at a position, where there are several.
pub open spec fn repo_group(ms: Seq<MemberView>) -> spec_fn(int) -> Seq<DupView> {
    |k: int|
        {
            let g = repo_members(ms, repos(ms)[k]);
            if g.len() > 1 {
                seq![
                    (DupView { files: g.map_values(|m: MemberView| m.rel), loc: g[0].loc }),
                ]
            } else {
                seq![]
            }
        }
}

/// The groups of the files with the hash at a position.
pub open spec fn hash_groups(fs: Seq<FileFacts>) -> spec_fn(int) -> Seq<DupView> {
    |i: int|
        {
            let ms = members(fs, hashes(fs)[i].bytes);
            gather(repos(ms).len() as int, repo_group(ms))
        }
}

/// The groups of files with the same contents within one repository: those with more files
/// first.
pub open spec fn dup_groups(fs: Seq<FileFacts>) -> Seq<DupView> {
    arranged(gather(hashes(fs).len() as int, hash_groups(fs)))
}

/// How many of the first `n` hashes belong to files of several repositories.
pub open spec fn mirrors_upto(fs: Seq<FileFacts>, n: int) -> nat
    decreases n,
{
    if n <= 0 {
        0
    } else {
        mirrors_upto(fs, n - 1) + (if repos(members(fs, hashes(fs)[n - 1].bytes)).len() > 1 {
            1nat
        } else {
            0nat
        })
    }
}

fn same_hash(a: &[u8; 32], b: &[u8; 32]) -> (r: bool)
    ensures
        r == (a@ == b@),
{
    let mut i: usize = 0;
    while i < 32
        invariant
            i <= 32,
            forall|k: int| 0 <= k < i ==> a@[k] == b@[k],
        decreases 32 - i,
    {
        if a[i] != b[i] {
            assert(a@[i as int] != b@[i as int]);
            return false;
        }
        i += 1;
    }
    assert(a@ =~= b@);
    true
}

fn list_hashes(fs: &Vec<FileFacts>) -> (r: Vec<HashKey>)
    ensures
        r@.map_values(|k: HashKey| k@) == hashes(fs@),
{
    let mut out: Vec<HashKey> = Vec::new();
    let mut i: usize = 0;
    while i < fs.len()
        invariant
            i <= fs.len(),
            out@.map_values(|k: HashKey| k@) =~= gather(i as int, hash_at(fs@)),
        decreases fs.len() - i,
    {
        let ghost before = out@.map_values(|k: HashKey| k@);
        match fs[i].hash {
            Some(h) => {
                let k = HashKey { bytes: h };
                assert(out@.push(k).map_values(|k: HashKey| k@) =~= before.push(k@));
                out.push(k);
            },
            None => {},
        }
        i += 1;
    }
    proof {
        canonical_mapped(out@, |k: HashKey| k@);
    }
    canon(out)
}

fn list_members(fs: &Vec<FileFacts>, h: &[u8; 32]) -> (r: Vec<Member>)
    ensures
        member_views(r@) == members(fs@, h@),
{
    let mut out: Vec<Member> = Vec::new();
    let mut i: usize = 0;
    while i < fs.len()
        invariant
            i <= fs.len(),
            member_views(out@) =~= gather(i as int, member_at(fs@, h@)),
        decreases fs.len() - i,
    {
        let f = &fs[i];
        let ghost before = member_views(out@);
        let hit = match &f.hash {
            Some(x) => same_hash(x, h),
            None => false,
        };
        if hit {
            let m = Member {
                rel: f.rel.clone(),
                loc: f.lines as usize,
                repo: f.subrepo.clone(),
            };
            assert(member_views(out@.push(m)) =~= before.push(m@));
            out.push(m);
        }
        i += 1;
    }
    out
}

fn list_repos(ms: &Vec<Member>) -> (r: Vec<String>)
    ensures
        texts(r@) == repos(member_views(ms@)),
{
    let ghost all = member_views(ms@).map_values(|m: MemberView| m.repo);
    let mut out: Vec<String> = Vec::new();
    let mut i: usize = 0;
    while i < ms.len()
        invariant
            i <= ms.len(),
            all == member_views(ms@).map_values(|m: MemberView| m.repo),
            texts(out@) =~= all.take(i as int),
        decreases ms.len() - i,
    {
        put(&mut out, ms[i].repo.clone());
        assert(all.take(i + 1) =~= all.take(i as int).push(all[i as int]));
        i += 1;
    }
    proof {
        assert(all.take(all.len() as int) =~= all);
        canonical_mapped(out@, |s: String| s@);
    }
    sort_dedup(out)
}

fn make_group(ms: &Vec<Member>, repo: &str) -> (r: Option<DupGroup>)
    ensures
        match r {
            Some(g) => repo_members(member_views(ms@), repo@).len() > 1 && g@ == (DupView {
                files: repo_members(member_views(ms@), repo@).map_values(|m: MemberView| m.rel),
                loc: repo_members(member_views(ms@), repo@)[0].loc,
            }),
            None => repo_members(member_views(ms@), repo@).len() <= 1,
        },
{
    let ghost all = member_views(ms@);
    let mut mine: Vec<Member> = Vec::new();
    let mut i: usize = 0;
    while i < ms.len()
        invariant
            i <= ms.len(),
            all == member_views(ms@),
            member_views(mine@) =~= gather(i as int, in_repo(all, repo@)),
        decreases ms.len() - i,
    {
        let m = &ms[i];
        assert(all[i as int] == m@);
        let ghost before = member_views(mine@);
        if same(m.repo.as_str(), repo) {
            let c = Member { rel: m.rel.clone(), loc: m.loc, repo: m.repo.clone() };
            assert(member_views(mine@.push(c)) =~= before.push(c@));
            mine.push(c);
        }
        i += 1;
    }
    proof {
        arranged_mapped(mine@, |m: Member| m@);
    }
    let sorted = arrange(mine);
    let ghost g = repo_members(all, repo@);
    assert(member_views(sorted@) == g);
    assert(g.len() == sorted@.len());
    if sorted.len() <= 1 {
        return None;
    }
    let mut files: Vec<String> = Vec::new();
    let ghost goal = g.map_values(|m: MemberView| m.rel);
    let mut i: usize = 0;
    while i < sorted.len()
        invariant
            i <= sorted.len(),
            member_views(sorted@) == g,
            goal == g.map_values(|m: MemberView| m.rel),
            texts(files@) =~= goal.take(i as int),
        decreases sorted.len() - i,
    {
        assert(member_views(sorted@)[i as int] == sorted@[i as int]@);
        put(&mut files, sorted[i].rel.clone());
        assert(goal.take(i + 1) =~= goal.take(i as int).push(goal[i as int]));
        i += 1;
    }
    assert(goal.take(goal.len() as int) =~= goal);
    assert(member_views(sorted@)[0] == sorted@[0]@);
    Some(DupGroup { files, loc: sorted[0].loc })
}

fn add_groups(ms: &Vec<Member>, subs: &Vec<String>, out: &mut Vec<DupGroup>)
    requires
        texts(subs@) == repos(member_views(ms@)),
    ensures
        dup_views(final(out)@) == dup_views(old(out)@) + gather(
            repos(member_views(ms@)).len() as int,
            repo_group(member_views(ms@)),
        ),
{
    let ghost all = member_views(ms@);
    let ghost base = dup_views(out@);
    let mut k: usize = 0;
    while k < subs.len()
        invariant
            k <= subs.len(),
            all == member_views(ms@),
            texts(subs@) == repos(all),
            dup_views(out@) =~= base + gather(k as int, repo_group(all)),
        decreases subs.len() - k,
    {
        assert(texts(subs@)[k as int] == subs@[k as int]@);
        let ghost before = dup_views(out@);
        match make_group(ms, subs[k].as_str()) {
            Some(g) => {
                assert(dup_views(out@.push(g)) =~= before.push(g@));
                out.push(g);
            },
            None => {},
        }
        k += 1;
    }
    assert(repos(all).len() == subs@.len());
}

/// The groups of files with the same contents within one repository, and how many contents are
/// mirrored from one repository to another, which is no waste.
pub fn exact_dups(scan: &Scan) -> (r: (Vec<DupGroup>, usize))
    ensures
        dup_views(r.0@) == dup_groups(scan.files@),
        r.1 == mirrors_upto(scan.files@, hashes(scan.files@).len() as int),
{
    let ghost fs = scan.files@;
    let hs = list_hashes(&scan.files);
    let mut groups: Vec<DupGroup> = Vec::new();
    let mut mirrors: usize = 0;
    let mut i: usize = 0;
    while i < hs.len()
        invariant
            i <= hs.len(),
            fs == scan.files@,
            hs@.map_values(|k: HashKey| k@) == hashes(fs),
            dup_views(groups@) =~= gather(i as int, hash_groups(fs)),
            mirrors == mirrors_upto(fs, i as int),
            mirrors <= i,
        decreases hs.len() - i,
    {
        assert(hs@.map_values(|k: HashKey| k@)[i as int] == hs@[i as int]@);
        let ms = list_members(&scan.files, &hs[i].bytes);
        let subs = list_repos(&ms);
        assert(texts(subs@).len() == subs@.len());
        if subs.len() > 1 {
            mirrors += 1;
        }
        add_groups(&ms, &subs, &mut groups);
        i += 1;
    }
    proof {
        assert(hashes(fs).len() == hs@.len());
        assert forall|g: DupGroup| (#[trigger] g@).rank() == g.rank() by {
            assert(texts(g.files@).len() == g.files@.len());
        }
        arranged_mapped(groups@, |g: DupGroup| g@);
    }
    (arrange(groups), mirrors)
}

/// Files of one group belong to one repository, and have the same contents.
pub proof fn groups_stay_within(fs: Seq<FileFacts>, h: Seq<u8>, repo: Seq<char>, m: MemberView)
    requires
        repo_members(members(fs, h), repo).contains(m),
    ensures
        m.repo == repo,
        exists|i: int|
            0 <= i < fs.len() && (#[trigger] fs[i]).rel@ == m.rel && fs[i].subrepo@ == repo
                && fs[i].hash is Some && fs[i].hash->0@ == h,
{
    let ms = members(fs, h);
    crate::order::arranged_contains(gather(ms.len() as int, in_repo(ms, repo)), m);
    crate::text::gather_contains(ms.len() as int, in_repo(ms, repo), m);
    let k = choose|k: int| 0 <= k < ms.len() && (#[trigger] (in_repo(ms, repo))(k)).contains(m);
    let one = (in_repo(ms, repo))(k);
    let j = choose|j: int| 0 <= j < one.len() && one[j] == m;
    assert(ms[k] == m);
    assert(ms.contains(m));
    crate::text::gather_contains(fs.len() as int, member_at(fs, h), m);
    let i = choose|i: int| 0 <= i < fs.len() && (#[trigger] (member_at(fs, h))(i)).contains(m);
    let two = (member_at(fs, h))(i);
    let n = choose|n: int| 0 <= n < two.len() && two[n] == m;
    assert(fs[i].rel@ == m.rel);
}

proof fn hash_found(fs: Seq<FileFacts>, i: int) -> (q: int)
    requires
        0 <= i < fs.len(),
        fs[i].hash is Some,
    ensures
        0 <= q < hashes(fs).len(),
        hashes(fs)[q].bytes == fs[i].hash->0@,
{
    let raw = gather(fs.len() as int, hash_at(fs));
    let v = HashView { bytes: fs[i].hash->0@ };
    assert((hash_at(fs))(i)[0] == v);
    assert((hash_at(fs))(i).contains(v));
    gather_contains(fs.len() as int, hash_at(fs), v);
    crate::order::canonical_facts(raw);
    let c = canonical(raw);
    let q = choose|q: int| 0 <= q < c.len() && #[trigger] c[q].rank() == v.rank();
    let a = c[q].bytes;
    let b = v.bytes;
    assert(c[q].rank().len() == a.len() && v.rank().len() == b.len());
    assert forall|k: int| 0 <= k < a.len() implies a[k] == b[k] by {
        assert(c[q].rank()[k] == a[k] as i64);
        assert(v.rank()[k] == b[k] as i64);
    }
    assert(a =~= b);
    q
}

proof fn member_found(fs: Seq<FileFacts>, i: int)
    requires
        0 <= i < fs.len(),
        fs[i].hash is Some,
    ensures
        ({
            let m = MemberView { rel: fs[i].rel@, loc: fs[i].lines as usize, repo: fs[i].subrepo@ };
            let ms = members(fs, fs[i].hash->0@);
            &&& ms.contains(m)
            &&& repo_members(ms, fs[i].subrepo@).contains(m)
            &&& exists|w: int| 0 <= w < repos(ms).len() && #[trigger] repos(ms)[w] == fs[i].subrepo@
        }),
{
    let h = fs[i].hash->0@;
    let repo = fs[i].subrepo@;
    let m = MemberView { rel: fs[i].rel@, loc: fs[i].lines as usize, repo };
    let ms = members(fs, h);
    assert((member_at(fs, h))(i)[0] == m);
    assert((member_at(fs, h))(i).contains(m));
    gather_contains(fs.len() as int, member_at(fs, h), m);
    let k = choose|k: int| 0 <= k < ms.len() && ms[k] == m;
    assert((in_repo(ms, repo))(k)[0] == m);
    assert((in_repo(ms, repo))(k).contains(m));
    gather_contains(ms.len() as int, in_repo(ms, repo), m);
    crate::order::arranged_contains(gather(ms.len() as int, in_repo(ms, repo)), m);
    let rs = ms.map_values(|m: MemberView| m.repo);
    assert(rs[k] == repo);
    assert(rs.contains(repo));
    crate::order::canonical_facts(rs);
    let c = canonical(rs);
    let w = choose|w: int| 0 <= w < c.len() && #[trigger] c[w].rank() == repo.rank();
    crate::order::name_rank_injective(false, c[w], repo);
    assert(repos(ms)[w] == repo);
}

/// No copy within a repository is missed: two files of one repository with the same contents stand
/// in one group.
pub proof fn copies_are_found(fs: Seq<FileFacts>, i: int, j: int)
    requires
        0 <= i < fs.len(),
        0 <= j < fs.len(),
        fs[i].rel@ != fs[j].rel@,
        fs[i].subrepo@ == fs[j].subrepo@,
        fs[i].hash is Some,
        fs[j].hash is Some,
        fs[i].hash->0@ == fs[j].hash->0@,
    ensures
        exists|d: DupView| #[trigger]
            dup_groups(fs).contains(d) && d.files.contains(fs[i].rel@) && d.files.contains(
                fs[j].rel@,
            ),
{
    let q = hash_found(fs, i);
    member_found(fs, i);
    member_found(fs, j);
    let ms = members(fs, fs[i].hash->0@);
    let repo = fs[i].subrepo@;
    let w = choose|w: int| 0 <= w < repos(ms).len() && #[trigger] repos(ms)[w] == repo;
    let g = repo_members(ms, repo);
    let a = MemberView { rel: fs[i].rel@, loc: fs[i].lines as usize, repo };
    let b = MemberView { rel: fs[j].rel@, loc: fs[j].lines as usize, repo };
    let x = choose|x: int| 0 <= x < g.len() && g[x] == a;
    let y = choose|y: int| 0 <= y < g.len() && g[y] == b;
    assert(x != y);
    let d = DupView { files: g.map_values(|m: MemberView| m.rel), loc: g[0].loc };
    assert(d.files[x] == fs[i].rel@);
    assert(d.files[y] == fs[j].rel@);
    assert((repo_group(ms))(w)[0] == d);
    assert((repo_group(ms))(w).contains(d));
    gather_contains(repos(ms).len() as int, repo_group(ms), d);
    assert((hash_groups(fs))(q).contains(d));
    gather_contains(hashes(fs).len() as int, hash_groups(fs), d);
    crate::order::arranged_contains(gather(hashes(fs).len() as int, hash_groups(fs)), d);
    assert(dup_groups(fs).contains(d));
}

/// A group of copies has at least two files.
pub proof fn groups_have_copies(fs: Seq<FileFacts>, d: DupView)
    requires
        dup_groups(fs).contains(d),
    ensures
        d.files.len() > 1,
{
    let all = gather(hashes(fs).len() as int, hash_groups(fs));
    crate::order::arranged_contains(all, d);
    gather_contains(hashes(fs).len() as int, hash_groups(fs), d);
    let q = choose|q: int|
        0 <= q < hashes(fs).len() && (#[trigger] (hash_groups(fs))(q)).contains(d);
    let ms = members(fs, hashes(fs)[q].bytes);
    gather_contains(repos(ms).len() as int, repo_group(ms), d);
    let w = choose|w: int|
        0 <= w < repos(ms).len() && (#[trigger] (repo_group(ms))(w)).contains(d);
    let one = (repo_group(ms))(w);
    let k = choose|k: int| 0 <= k < one.len() && one[k] == d;
    assert(d.files.len() == repo_members(ms, repos(ms)[w]).len());
}

// ── the report ─────────────────────────────────────────────────────────────────────────

/// How lean a repository is.
#[derive(Debug, Clone)]
pub struct LeanReport {
    pub files: usize,
    pub composites: usize,
    /// Directories without a file anywhere in them.
    pub empty_dirs: Vec<String>,
    /// Files with the same contents within one repository.
    pub dup_groups: Vec<DupGroup>,
    /// How many contents are mirrored from one repository to another.
    pub cross_repo_mirrors: usize,
    pub max_depth: usize,
    /// How many symbols nothing uses; none where this was not measured.
    pub dead_code: Option<usize>,
    /// How many files are misplaced; none where this was not measured.
    pub misplaced: Option<usize>,
    /// What was not measured.
    pub deferred: Vec<String>,
}

impl Default for LeanReport {
    fn default() -> (r: LeanReport)
        ensures
            r.files == 0,
            r.composites == 0,
            r.empty_dirs@.len() == 0,
            r.dup_groups@.len() == 0,
            r.cross_repo_mirrors == 0,
            r.max_depth == 0,
            r.dead_code is None,
            r.misplaced is None,
            r.deferred@.len() == 0,
    {
        LeanReport {
            files: 0,
            composites: 0,
            empty_dirs: Vec::new(),
            dup_groups: Vec::new(),
            cross_repo_mirrors: 0,
            max_depth: 0,
            dead_code: None,
            misplaced: None,
            deferred: Vec::new(),
        }
    }
}

/// How many files of a group are redundant: all but one.
pub open spec fn redundant(g: DupGroup) -> int {
    if g.files@.len() > 0 {
        g.files@.len() - 1
    } else {
        0
    }
}

/// How many files of the first `n` groups are redundant.
pub open spec fn redundant_upto(gs: Seq<DupGroup>, n: int) -> int
    decreases n,
{
    if n <= 0 {
        0
    } else {
        capped(redundant_upto(gs, n - 1) + redundant(gs[n - 1]))
    }
}

/// How many lines the redundant files of the first `n` groups have.
pub open spec fn wasted_upto(gs: Seq<DupGroup>, n: int) -> int
    decreases n,
{
    if n <= 0 {
        0
    } else {
        capped(wasted_upto(gs, n - 1) + capped(redundant(gs[n - 1]) * gs[n - 1].loc))
    }
}

fn multiply_capped(a: usize, b: usize) -> (r: usize)
    ensures
        r == capped(a * b),
{
    proof {
        assert(0 <= a * b <= usize::MAX * usize::MAX) by (nonlinear_arith)
            requires
                0 <= a <= usize::MAX,
                0 <= b <= usize::MAX,
        ;
    }
    let p: u128 = (a as u128) * (b as u128);
    if p <= usize::MAX as u128 {
        p as usize
    } else {
        usize::MAX
    }
}

impl LeanReport {
    /// How many files are redundant: every copy beyond the first.
    pub open spec fn redundant_files(self) -> int {
        redundant_upto(self.dup_groups@, self.dup_groups@.len() as int)
    }

    /// How many files are redundant: every copy beyond the first.
    pub fn dup_files(&self) -> (r: usize)
        ensures
            r == self.redundant_files(),
    {
        let mut n: usize = 0;
        let mut i: usize = 0;
        while i < self.dup_groups.len()
            invariant
                i <= self.dup_groups.len(),
                n == redundant_upto(self.dup_groups@, i as int),
            decreases self.dup_groups.len() - i,
        {
            let g = &self.dup_groups[i];
            let extra = if g.files.len() > 0 {
                g.files.len() - 1
            } else {
                0
            };
            n = add_capped(n, extra);
            i += 1;
        }
        n
    }

    /// How many lines redundant files have.
    pub fn wasted_loc(&self) -> (r: usize)
        ensures
            r == wasted_upto(self.dup_groups@, self.dup_groups@.len() as int),
    {
        let mut n: usize = 0;
        let mut i: usize = 0;
        while i < self.dup_groups.len()
            invariant
                i <= self.dup_groups.len(),
                n == wasted_upto(self.dup_groups@, i as int),
            decreases self.dup_groups.len() - i,
        {
            let g = &self.dup_groups[i];
            let extra = if g.files.len() > 0 {
                g.files.len() - 1
            } else {
                0
            };
            n = add_capped(n, multiply_capped(extra, g.loc));
            i += 1;
        }
        n
    }
}

/// How many of the first `n` nodes are of a kind.
pub open spec fn kind_count(t: Tree, kind: Kind, n: int) -> nat
    decreases n,
{
    if n <= 0 {
        0
    } else {
        kind_count(t, kind, n - 1) + (if t.nodes@[n - 1].1.kind == kind {
            1nat
        } else {
            0nat
        })
    }
}

/// The id of the node at a position, where it is a directory other than the root without a file
/// in it; `atoms` gives the number of files in each node.
pub open spec fn empty_dir(t: Tree, atoms: Seq<(Seq<char>, usize)>) -> spec_fn(int) -> Seq<
    Seq<char>,
> {
    |i: int|
        {
            let n = t.nodes@[i].1;
            if n.kind == Kind::Composite && n.id@ != t.root@ && (match value_of(atoms, n.id@) {
                Some(c) => c == 0,
                None => true,
            }) {
                seq![n.id@]
            } else {
                seq![]
            }
        }
}

/// Whether a table gives every node on the way down from the root the number of its files.
pub open spec fn counts_atoms(t: Tree, atoms: Seq<(Seq<char>, usize)>) -> bool {
    t.measures(Measure::Atoms, atoms) && forall|id: Seq<char>| #[trigger]
        named(atoms, id) <==> t.within(id)
}

/// What a report says of the structure of a tree.
pub open spec fn reports_structure(r: LeanReport, t: Tree) -> bool {
    &&& r.files == kind_count(t, Kind::Atom, t.nodes@.len() as int)
    &&& r.composites == kind_count(t, Kind::Composite, t.nodes@.len() as int)
    &&& t.root_measure(Measure::Depth, r.max_depth as int)
    &&& exists|atoms: Seq<(Seq<char>, usize)>| #[trigger]
        counts_atoms(t, atoms) && texts(r.empty_dirs@) == arranged(
            gather(t.nodes@.len() as int, empty_dir(t, atoms)),
        )
}

/// What is not measured without a code graph.
pub open spec fn unmeasured() -> Seq<Seq<char>> {
    seq![
        "dead-code (reachability — needs SCIP)"@,
        "misplacement (coupling fold — needs the dependency graph)"@,
    ]
}

/// How lean a repository is, from its tree and from a scan of its files.
pub fn analyze_from_scan(tree: &Tree, scan: &Scan) -> (r: LeanReport)
    requires
        tree.foldable(),
    ensures
        reports_structure(r, *tree),
        dup_views(r.dup_groups@) == dup_groups(scan.files@),
        r.cross_repo_mirrors == mirrors_upto(scan.files@, hashes(scan.files@).len() as int),
        r.dead_code is None,
        r.misplaced is None,
        texts(r.deferred@) == unmeasured(),
{
    let counts = tree.measure(Measure::Atoms);
    let mut files: usize = 0;
    let mut composites: usize = 0;
    let mut empty: Vec<String> = Vec::new();
    let total = tree.nodes.len();
    let mut i: usize = 0;
    while i < total
        invariant
            i <= total == tree.nodes@.len(),
            files == kind_count(*tree, Kind::Atom, i as int),
            composites == kind_count(*tree, Kind::Composite, i as int),
            files <= i,
            composites <= i,
            texts(empty@) =~= gather(i as int, empty_dir(*tree, counts@)),
        decreases total - i,
    {
        let n = tree.nodes.value(i);
        match n.kind {
            Kind::Atom => {
                files += 1;
            },
            Kind::Composite => {
                composites += 1;
                let none = match counts.get(n.id.as_str()) {
                    Some(c) => *c == 0,
                    None => true,
                };
                if !same(n.id.as_str(), tree.root.as_str()) && none {
                    put(&mut empty, n.id.clone());
                }
            },
        }
        i += 1;
    }
    let mut deferred: Vec<String> = Vec::new();
    put(&mut deferred, "dead-code (reachability — needs SCIP)".to_owned());
    put(&mut deferred, "misplacement (coupling fold — needs the dependency graph)".to_owned());
    assert(texts(deferred@) =~= unmeasured());
    let (groups, mirrors) = exact_dups(scan);
    assert(counts_atoms(*tree, counts@));
    LeanReport {
        files,
        composites,
        empty_dirs: sort_texts(empty),
        dup_groups: groups,
        cross_repo_mirrors: mirrors,
        max_depth: tree.measure_root(Measure::Depth),
        dead_code: None,
        misplaced: None,
        deferred,
    }
}

/// How lean a repository is, from its tree and from a scan of its files.
pub fn analyze(tree: &Tree, scan: &Scan) -> (r: LeanReport)
    requires
        tree.foldable(),
    ensures
        reports_structure(r, *tree),
        dup_views(r.dup_groups@) == dup_groups(scan.files@),
        r.cross_repo_mirrors == mirrors_upto(scan.files@, hashes(scan.files@).len() as int),
        r.dead_code is None,
        r.misplaced is None,
        texts(r.deferred@) == unmeasured(),
{
    analyze_from_scan(tree, scan)
}

/// How many symbols nothing uses, where there is a code graph.
pub fn dead_code_count(graph: Option<&CodeGraph>, ws: &Workspace) -> (r: Option<usize>)
    ensures
        match graph {
            None => r is None,
            Some(g) => r is Some && exists|roots: Seq<(Seq<char>, ())>| #[trigger]
                roots_of(*g, *ws, roots) && r->0 == gather(
                    g.symbols@.len() as int,
                    dead_at(*g, *ws, Seq::empty(), roots),
                ).len(),
        },
{
    match graph {
        None => None,
        Some(g) => {
            let all: Vec<i32> = Vec::new();
            let dead = g.dead_symbols(ws, &all);
            proof {
                assert(all@ =~= Seq::<i32>::empty());
                let roots = choose|roots: Seq<(Seq<char>, ())>| #[trigger]
                    roots_of(*g, *ws, roots) && dead@ == arranged(
                        gather(
                            g.symbols@.len() as int,
                            dead_at(*g, *ws, all@, roots),
                        ),
                    );
                crate::order::arranged_facts(
                    gather(g.symbols@.len() as int, dead_at(*g, *ws, all@, roots)),
                );
                assert(roots_of(*g, *ws, roots));
            }
            Some(dead.len())
        },
    }
}

/// How many files are misplaced, where there is a code graph.
pub fn misplacement_count(graph: Option<&CodeGraph>) -> (r: Option<usize>)
    ensures
        match graph {
            None => r is None,
            Some(g) => r is Some && exists|ms: Seq<crate::scip::Misplacement>| #[trigger]
                lists_misplaced(g.file_deps@, ms) && r->0 == ms.len(),
        },
{
    match graph {
        None => None,
        Some(g) => {
            let ms = g.misplacements();
            assert(lists_misplaced(g.file_deps@, ms@));
            Some(ms.len())
        },
    }
}

// ── the ratchet ────────────────────────────────────────────────────────────────────────

/// What a repository may not exceed.
#[derive(Debug, Clone, Copy, PartialEq, Eq)]
pub struct LeanCeilings {
    pub max_dup_files: usize,
    pub max_empty_dirs: usize,
    /// How many symbols may be unused; none where this was not measured.
    pub max_dead: Option<usize>,
    /// How many files may be misplaced; none where this was not measured.
    pub max_misplaced: Option<usize>,
}

/// A regression of one measure, where it exceeds its ceiling.
pub open spec fn regression(what: Seq<char>, now: int, most: int) -> Seq<Seq<char>> {
    if now > most {
        seq![what + dec(now as nat) + " > baseline "@ + dec(most as nat)]
    } else {
        seq![]
    }
}

/// A regression of one measure, where both it and its ceiling were measured.
pub open spec fn measured_regression(
    what: Seq<char>,
    now: Option<usize>,
    most: Option<usize>,
) -> Seq<Seq<char>> {
    match (now, most) {
        (Some(n), Some(m)) => regression(what, n as int, m as int),
        _ => seq![],
    }
}

fn add_regression(what: &str, now: usize, most: usize, out: &mut Vec<String>)
    ensures
        texts(final(out)@) == texts(old(out)@) + regression(what@, now as int, most as int),
{
    let ghost before = texts(out@);
    if now > most {
        put(
            out,
            cat4(what, decimal_usize(now).as_str(), " > baseline ", decimal_usize(most).as_str()),
        );
    }
    assert(texts(out@) =~= before + regression(what@, now as int, most as int));
}

fn add_measured(what: &str, now: Option<usize>, most: Option<usize>, out: &mut Vec<String>)
    ensures
        texts(final(out)@) == texts(old(out)@) + measured_regression(what@, now, most),
{
    let ghost before = texts(out@);
    match (now, most) {
        (Some(n), Some(m)) => {
            add_regression(what, n, m, out);
        },
        _ => {},
    }
    assert(texts(out@) =~= before + measured_regression(what@, now, most));
}

impl LeanCeilings {
    /// The ceilings that a report just meets.
    pub fn from_report(r: &LeanReport) -> (c: LeanCeilings)
        ensures
            c.max_dup_files == r.redundant_files(),
            c.max_empty_dirs == r.empty_dirs@.len(),
            c.max_dead == r.dead_code,
            c.max_misplaced == r.misplaced,
    {
        LeanCeilings {
            max_dup_files: r.dup_files(),
            max_empty_dirs: r.empty_dirs.len(),
            max_dead: r.dead_code,
            max_misplaced: r.misplaced,
        }
    }

    /// What a report exceeds.
    pub open spec fn exceeded(self, r: LeanReport) -> Seq<Seq<char>> {
        regression("duplicate files "@, r.redundant_files(), self.max_dup_files as int) + regression(
            "empty dirs "@,
            r.empty_dirs@.len() as int,
            self.max_empty_dirs as int,
        ) + measured_regression("dead symbols "@, r.dead_code, self.max_dead) + measured_regression(
            "misplaced files "@,
            r.misplaced,
            self.max_misplaced,
        )
    }

    /// How a report falls behind: that of its score where there is one, then what it exceeds.
    /// What was not measured on both sides does not count.
    pub fn regressions(&self, score: Option<String>, r: &LeanReport) -> (out: Vec<String>)
        ensures
            texts(out@) == (match score {
                Some(s) => seq![s@],
                None => seq![],
            }) + self.exceeded(*r),
    {
        let mut out: Vec<String> = Vec::new();
        let mut more: Vec<String> = Vec::new();
        match score {
            Some(s) => {
                put(&mut out, s);
                assert(texts(out@) =~= seq![s@]);
            },
            None => {
                assert(texts(out@) =~= Seq::<Seq<char>>::empty());
            },
        }
        add_regression("duplicate files ", r.dup_files(), self.max_dup_files, &mut more);
        assert(texts(more@) =~= regression(
            "duplicate files "@,
            r.redundant_files(),
            self.max_dup_files as int,
        ));
        add_regression("empty dirs ", r.empty_dirs.len(), self.max_empty_dirs, &mut more);
        add_measured("dead symbols ", r.dead_code, self.max_dead, &mut more);
        add_measured("misplaced files ", r.misplaced, self.max_misplaced, &mut more);
        crate::text::put_all(&mut out, &more);
        out
    }

    /// A report does not fall behind the ceilings that were taken from it.
    pub proof fn own_ceilings_hold(self, r: LeanReport)
        requires
            self.max_dup_files == r.redundant_files(),
            self.max_empty_dirs == r.empty_dirs@.len(),
            self.max_dead == r.dead_code,
            self.max_misplaced == r.misplaced,
        ensures
            self.exceeded(r).len() == 0,
    {
    }

    /// Ceilings that are no higher let no more through: what exceeds a ceiling exceeds every
    /// lower one.
    pub proof fn lower_ceilings_are_stricter(self, other: LeanCeilings, r: LeanReport)
        requires
            other.max_dup_files <= self.max_dup_files,
            other.max_empty_dirs <= self.max_empty_dirs,
            self.max_dead is Some ==> other.max_dead is Some && other.max_dead->0
                <= self.max_dead->0,
            self.max_misplaced is Some ==> other.max_misplaced is Some && other.max_misplaced->0
                <= self.max_misplaced->0,
            other.exceeded(r).len() == 0,
        ensures
            self.exceeded(r).len() == 0,
    {
    }
}

// ── files that are almost the same ─────────────────────────────────────────────────────

/// Files with fewer hashes of lines than this are left out.
pub const MIN_LINES: usize = 8;

/// A line that stands in more files than this tells nothing.
pub const MAX_DF: usize = 40;

/// How many telling lines two files must share.
pub const MIN_SHARED: usize = 5;

/// Two files that share lines.
#[derive(Debug, Clone)]
pub struct NearCandidate {
    pub a: String,
    pub b: String,
    /// How many lines stand in both.
    pub shared: usize,
    /// How many lines stand in either.
    pub total: usize,
}

/// Two files that share lines.
#[verifier::ext_equal]
pub struct CandidateView {
    pub a: Seq<char>,
    pub b: Seq<char>,
    pub shared: int,
    pub total: int,
}

impl View for NearCandidate {
    type V = CandidateView;

    open spec fn view(&self) -> CandidateView {
        CandidateView {
            a: self.a@,
            b: self.b@,
            shared: self.shared as int,
            total: self.total as int,
        }
    }
}

/// The views of a list of pairs.
pub open spec fn candidate_views(v: Seq<NearCandidate>) -> Seq<CandidateView> {
    v.map_values(|c: NearCandidate| c@)
}

/// The positions of the files among the first `n` that have enough lines.
pub open spec fn eligible_upto(fs: Seq<FileFacts>, n: int) -> Seq<int>
    decreases n,
{
    if n <= 0 {
        Seq::empty()
    } else if fs[n - 1].shingles@.len() >= MIN_LINES {
        eligible_upto(fs, n - 1).push(n - 1)
    } else {
        eligible_upto(fs, n - 1)
    }
}

/// In how many of the first `n` of the chosen files a line stands.
pub open spec fn frequency(fs: Seq<FileFacts>, es: Seq<int>, h: u64, n: int) -> nat
    decreases n,
{
    if n <= 0 {
        0
    } else {
        frequency(fs, es, h, n - 1) + (if fs[es[n - 1]].shingles@.contains(h) {
            1nat
        } else {
            0nat
        })
    }
}

/// How many of the first `n` lines of `a` stand in `b`.
pub open spec fn common(a: Seq<u64>, b: Seq<u64>, n: int) -> nat
    decreases n,
{
    if n <= 0 {
        0
    } else {
        common(a, b, n - 1) + (if b.contains(a[n - 1]) {
            1nat
        } else {
            0nat
        })
    }
}

/// How many of the first `n` lines of `a` stand in `b` and tell something.
pub open spec fn telling(
    fs: Seq<FileFacts>,
    es: Seq<int>,
    a: Seq<u64>,
    b: Seq<u64>,
    n: int,
) -> nat
    decreases n,
{
    if n <= 0 {
        0
    } else {
        telling(fs, es, a, b, n - 1) + (if b.contains(a[n - 1]) && frequency(
            fs,
            es,
            a[n - 1],
            es.len() as int,
        ) <= MAX_DF {
            1nat
        } else {
            0nat
        })
    }
}

/// The pair of the chosen files at two positions, where they belong to one repository, share
/// enough telling lines, and are not the same.
pub open spec fn candidate(fs: Seq<FileFacts>, es: Seq<int>, i: int) -> spec_fn(int) -> Seq<
    CandidateView,
> {
    |k: int|
        {
            let x = fs[es[i]];
            let y = fs[es[i + 1 + k]];
            let a = x.shingles@;
            let b = y.shingles@;
            let shared = common(a, b, a.len() as int);
            let total = capped(a.len() - shared + b.len());
            if x.subrepo@ == y.subrepo@ && telling(fs, es, a, b, a.len() as int) >= MIN_SHARED
                && shared < total {
                seq![(CandidateView { a: x.rel@, b: y.rel@, shared: shared as int, total })]
            } else {
                seq![]
            }
        }
}

/// The pairs of the chosen file at a position with later ones.
pub open spec fn candidates_of(fs: Seq<FileFacts>, es: Seq<int>) -> spec_fn(int) -> Seq<
    CandidateView,
> {
    |i: int| gather(es.len() - i - 1, candidate(fs, es, i))
}

/// The pairs of files that share enough lines.
pub open spec fn candidates(fs: Seq<FileFacts>) -> Seq<CandidateView> {
    let es = eligible_upto(fs, fs.len() as int);
    gather(es.len() as int, candidates_of(fs, es))
}

/// Whether the hashes of the lines of every file are in order and each there once.
pub open spec fn shingles_sorted(fs: Seq<FileFacts>) -> bool {
    forall|i: int| 0 <= i < fs.len() ==> crate::order::strictly_ascending(
        (#[trigger] fs[i]).shingles@,
    )
}

fn holds_sorted(v: &Vec<u64>, x: u64) -> (r: bool)
    requires
        crate::order::strictly_ascending(v@),
    ensures
        r == v@.contains(x),
{
    let mut lo: usize = 0;
    let mut hi: usize = v.len();
    while lo < hi
        invariant
            lo <= hi <= v.len(),
            crate::order::strictly_ascending(v@),
            forall|i: int| 0 <= i < lo ==> #[trigger] v@[i] < x,
            forall|i: int| hi <= i < v.len() ==> #[trigger] v@[i] > x,
        decreases hi - lo,
    {
        let mid: usize = lo + (hi - lo) / 2;
        let y = v[mid];
        if y == x {
            assert(v@[mid as int] == x);
            return true;
        }
        proof {
            assert forall|i: int, j: int| 0 <= i < j < v@.len() implies #[trigger] v@[i]
                < #[trigger] v@[j] by {
                assert(crate::order::before(v@[i].rank(), v@[j].rank()));
                crate::order::number_rank_orders(v@[i] as int, v@[j] as int);
            }
        }
        if y < x {
            lo = mid + 1;
        } else {
            hi = mid;
        }
    }
    false
}

fn list_eligible(fs: &Vec<FileFacts>) -> (r: Vec<usize>)
    ensures
        r@.map_values(|i: usize| i as int) == eligible_upto(fs@, fs@.len() as int),
        forall|k: int| 0 <= k < r@.len() ==> (#[trigger] r@[k]) < fs@.len(),
{
    let mut r: Vec<usize> = Vec::new();
    let mut i: usize = 0;
    while i < fs.len()
        invariant
            i <= fs.len(),
            r@.map_values(|i: usize| i as int) =~= eligible_upto(fs@, i as int),
            forall|k: int| 0 <= k < r@.len() ==> (#[trigger] r@[k]) < i,
        decreases fs.len() - i,
    {
        let ghost before = r@;
        if fs[i].shingles.len() >= MIN_LINES {
            r.push(i);
            assert forall|k: int| 0 <= k < r@.len() implies (#[trigger] r@[k]) < i + 1 by {
                if k < before.len() {
                    assert(before[k] < i);
                }
            }
        }
        i += 1;
    }
    r
}

/// The number that a map gives to a line, 0 where it gives none.
spec fn given(m: Map<u64, usize>, h: u64) -> nat {
    if m.dom().contains(h) {
        m[h] as nat
    } else {
        0
    }
}

/// Whether a map gives every line the number of the first `n` chosen files that it stands in.
spec fn counts_lines(m: Map<u64, usize>, fs: Seq<FileFacts>, es: Seq<int>, n: int) -> bool {
    forall|h: u64| #[trigger] given(m, h) == frequency(fs, es, h, n)
}

fn add_file(m: &mut HashMap<u64, usize>, set: &Vec<u64>, Ghost(most): Ghost<int>)
    requires
        crate::order::strictly_ascending(set@),
        forall|h: u64| #[trigger] given(old(m)@, h) <= most,
        most < usize::MAX,
    ensures
        forall|h: u64| #[trigger]
            given(final(m)@, h) == given(old(m)@, h) + (if set@.contains(h) {
                1nat
            } else {
                0nat
            }),
{
    let ghost before = m@;
    let mut i: usize = 0;
    while i < set.len()
        invariant
            i <= set.len(),
            crate::order::strictly_ascending(set@),
            forall|h: u64| #[trigger] given(before, h) <= most,
            most < usize::MAX,
            forall|h: u64| #[trigger]
                given(m@, h) == given(before, h) + (if set@.take(i as int).contains(h) {
                    1nat
                } else {
                    0nat
                }),
        decreases set.len() - i,
    {
        broadcast use vstd::std_specs::hash::group_hash_axioms;

        let x = set[i];
        let ghost mid = m@;
        let ghost head = set@.take(i as int);
        let ghost next = set@.take(i + 1);
        proof {
            assert(next =~= head.push(x));
            if head.contains(x) {
                let k = choose|k: int| 0 <= k < head.len() && head[k] == x;
                assert(crate::order::before(set@[k].rank(), set@[i as int].rank()));
                crate::order::before_irreflexive(x.rank());
            }
        }
        let now: usize = match m.get(&x) {
            Some(n) => *n,
            None => 0,
        };
        assert(now == given(mid, x));
        assert(given(before, x) <= most);
        m.insert(x, now + 1);
        proof {
            assert(m@ == mid.insert(x, (now + 1) as usize));
            assert forall|h: u64| #[trigger] given(m@, h) == given(before, h) + (if next.contains(h) {
                1nat
            } else {
                0nat
            }) by {
                crate::order::pushed_contains(head, x, h);
                assert(given(mid, h) == given(before, h) + (if head.contains(h) {
                    1nat
                } else {
                    0nat
                }));
            }
        }
        i += 1;
    }
    assert(set@.take(set@.len() as int) =~= set@);
}

fn count_lines(fs: &Vec<FileFacts>, es: &Vec<usize>) -> (r: HashMap<u64, usize>)
    requires
        shingles_sorted(fs@),
        forall|k: int| 0 <= k < es@.len() ==> (#[trigger] es@[k]) < fs@.len(),
    ensures
        counts_lines(r@, fs@, es@.map_values(|i: usize| i as int), es@.len() as int),
{
    let ghost ps = es@.map_values(|i: usize| i as int);
    let mut m: HashMap<u64, usize> = HashMap::new();
    let mut i: usize = 0;
    while i < es.len()
        invariant
            i <= es.len(),
            shingles_sorted(fs@),
            forall|k: int| 0 <= k < es@.len() ==> (#[trigger] es@[k]) < fs@.len(),
            ps == es@.map_values(|i: usize| i as int),
            counts_lines(m@, fs@, ps, i as int),
            forall|h: u64| #[trigger] given(m@, h) <= i,
        decreases es.len() - i,
    {
        let ghost before = m@;
        assert(es@[i as int] < fs@.len());
        let f = &fs[es[i]];
        assert(crate::order::strictly_ascending(fs@[es@[i as int] as int].shingles@));
        add_file(&mut m, &f.shingles, Ghost(i as int));
        proof {
            assert(ps[i as int] == es@[i as int]);
            assert forall|h: u64| #[trigger] given(m@, h) == frequency(fs@, ps, h, i + 1) by {
                assert(given(before, h) == frequency(fs@, ps, h, i as int));
            }
            assert forall|h: u64| #[trigger] given(m@, h) <= i + 1 by {
                assert(given(before, h) <= i);
            }
        }
        i += 1;
    }
    m
}

/// How many lines of `a` stand in `b`, and how many of those tell something.
fn compare_lines(
    a: &Vec<u64>,
    b: &Vec<u64>,
    m: &HashMap<u64, usize>,
    Ghost(fs): Ghost<Seq<FileFacts>>,
    Ghost(es): Ghost<Seq<int>>,
) -> (r: (usize, usize))
    requires
        crate::order::strictly_ascending(b@),
        counts_lines(m@, fs, es, es.len() as int),
    ensures
        r.0 == common(a@, b@, a@.len() as int),
        r.1 == telling(fs, es, a@, b@, a@.len() as int),
        r.0 <= a@.len(),
{
    let mut shared: usize = 0;
    let mut tell: usize = 0;
    let mut i: usize = 0;
    while i < a.len()
        invariant
            i <= a.len(),
            crate::order::strictly_ascending(b@),
            counts_lines(m@, fs, es, es.len() as int),
            shared == common(a@, b@, i as int),
            tell == telling(fs, es, a@, b@, i as int),
            shared <= i,
            tell <= i,
        decreases a.len() - i,
    {
        broadcast use vstd::std_specs::hash::group_hash_axioms;

        let x = a[i];
        if holds_sorted(b, x) {
            shared += 1;
            let df: usize = match m.get(&x) {
                Some(n) => *n,
                None => 0,
            };
            assert(df == given(m@, x));
            assert(given(m@, x) == frequency(fs, es, x, es.len() as int));
            if df <= MAX_DF {
                tell += 1;
            }
        }
        i += 1;
    }
    (shared, tell)
}

fn compare_files(
    x: &FileFacts,
    y: &FileFacts,
    m: &HashMap<u64, usize>,
    Ghost(fs): Ghost<Seq<FileFacts>>,
    Ghost(es): Ghost<Seq<int>>,
    Ghost(i): Ghost<int>,
    Ghost(k): Ghost<int>,
) -> (r: Option<NearCandidate>)
    requires
        crate::order::strictly_ascending(y.shingles@),
        counts_lines(m@, fs, es, es.len() as int),
        fs[es[i]] == *x,
        fs[es[i + 1 + k]] == *y,
    ensures
        match r {
            Some(c) => (candidate(fs, es, i))(k) == seq![c@],
            None => (candidate(fs, es, i))(k) == Seq::<CandidateView>::empty(),
        },
{
    if !same(x.subrepo.as_str(), y.subrepo.as_str()) {
        return None;
    }
    let (shared, tell) = compare_lines(&x.shingles, &y.shingles, m, Ghost(fs), Ghost(es));
    let total = add_capped(x.shingles.len() - shared, y.shingles.len());
    if tell >= MIN_SHARED && shared < total {
        Some(NearCandidate { a: x.rel.clone(), b: y.rel.clone(), shared, total })
    } else {
        None
    }
}

/// The pairs of files of one repository that share enough lines and are not the same, with how
/// many lines stand in both and how many in either.
pub fn near_candidates(scan: &Scan) -> (r: Vec<NearCandidate>)
    requires
        shingles_sorted(scan.files@),
    ensures
        candidate_views(r@) == candidates(scan.files@),
{
    let ghost fs = scan.files@;
    let es = list_eligible(&scan.files);
    let ghost ps = eligible_upto(fs, fs.len() as int);
    assert(ps.len() == es@.len());
    let m = count_lines(&scan.files, &es);
    let mut out: Vec<NearCandidate> = Vec::new();
    let mut i: usize = 0;
    while i < es.len()
        invariant
            i <= es.len() == ps.len(),
            fs == scan.files@,
            shingles_sorted(fs),
            ps == es@.map_values(|i: usize| i as int),
            forall|k: int| 0 <= k < es@.len() ==> (#[trigger] es@[k]) < fs.len(),
            counts_lines(m@, fs, ps, ps.len() as int),
            candidate_views(out@) =~= gather(i as int, candidates_of(fs, ps)),
        decreases es.len() - i,
    {
        assert(es@[i as int] < fs.len() && ps[i as int] == es@[i as int]);
        let x = &scan.files[es[i]];
        let ghost base = candidate_views(out@);
        let mut k: usize = 0;
        while k < es.len() - i - 1
            invariant
                i < es.len() == ps.len(),
                k <= es.len() - i - 1,
                fs == scan.files@,
                shingles_sorted(fs),
                ps == es@.map_values(|i: usize| i as int),
                forall|k: int| 0 <= k < es@.len() ==> (#[trigger] es@[k]) < fs.len(),
                counts_lines(m@, fs, ps, ps.len() as int),
                fs[ps[i as int]] == *x,
                candidate_views(out@) =~= base + gather(k as int, candidate(fs, ps, i as int)),
            decreases es.len() - i - 1 - k,
        {
            let j: usize = i + 1 + k;
            assert(es@[j as int] < fs.len() && ps[j as int] == es@[j as int]);
            let y = &scan.files[es[j]];
            assert(crate::order::strictly_ascending(fs[es@[j as int] as int].shingles@));
            let ghost before = candidate_views(out@);
            let found = compare_files(
                x,
                y,
                &m,
                Ghost(fs),
                Ghost(ps),
                Ghost(i as int),
                Ghost(k as int),
            );
            match found {
                Some(c) => {
                    assert(candidate_views(out@.push(c)) =~= before.push(c@));
                    out.push(c);
                },
                None => {},
            }
            k += 1;
        }
        i += 1;
    }
    out
}

} // verus!
