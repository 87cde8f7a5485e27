//! What is said about how lean a repository is: as findings, and as lines to read.
use vstd::prelude::*;

use crate::clones::{all_functions, clone_groups, CloneGroup};
use crate::finding::{
    emit, emit_all, finding_views, location_views, Finding, FindingView, Location, LocationView,
    Severity,
};
use crate::lean::{
    dup_groups, dup_views, hashes, mirrors_upto, reports_structure, unmeasured, wasted_upto,
    DupGroup, LeanReport,
};
use crate::links::groups;
use crate::moves::Workspace;
use crate::scan::Scan;
use crate::scip::{dead_at, lists_cycles, lists_misplaced, roots_of, CodeGraph, Misplacement, Sym};
use crate::text::{
    cat2, cat3, cat4, cat5, cat6, cat7, chars, concat_contains, dec, decimal_usize, gather,
    gather_contains, join, joined, put, put_all, same, starts, starts_with, texts,
};
use crate::tree::Tree;

verus! {

// ── what is reported ───────────────────────────────────────────────────────────────────

/// Two files that are nearly the same, and how much of them is, in percent and written out.
#[derive(Debug, Clone, PartialEq, Eq)]
pub struct NearPair {
    pub a: String,
    pub b: String,
    pub percent: String,
}

/// What only a code graph can tell.
#[derive(Debug)]
pub struct GraphSignals {
    /// The symbols that nothing uses.
    pub dead: Vec<Sym>,
    /// The groups of files that depend on each other in turn.
    pub cycles: Vec<Vec<String>>,
    /// The files that belong elsewhere.
    pub misplaced: Vec<Misplacement>,
}

impl GraphSignals {
    /// Reads off a code graph what it can tell.
    pub fn measure(graph: &CodeGraph, ws: &Workspace) -> (r: GraphSignals)
        ensures
            exists|roots: Seq<(Seq<char>, ())>| #[trigger]
                roots_of(*graph, *ws, roots) && r.dead@ == crate::order::arranged(
                    gather(
                        graph.symbols@.len() as int,
                        dead_at(*graph, *ws, Seq::empty(), roots),
                    ),
                ),
            lists_cycles(graph.file_deps@, groups(r.cycles@)),
            lists_misplaced(graph.file_deps@, r.misplaced@),
    {
        let all: Vec<i32> = Vec::new();
        assert(all@ =~= Seq::<i32>::empty());
        GraphSignals {
            dead: graph.dead_symbols(ws, &all),
            cycles: graph.dependency_cycles(),
            misplaced: graph.misplacements(),
        }
    }
}

/// What remains unmeasured of a list once a code graph was read.
pub open spec fn still_deferred(ds: Seq<Seq<char>>) -> spec_fn(int) -> Seq<Seq<char>> {
    |i: int|
        if starts(ds[i], "dead-code"@) || starts(ds[i], "misplacement"@) {
            seq![]
        } else {
            seq![ds[i]]
        }
}

/// The report with what a code graph tells, which is then no longer unmeasured; the report as it
/// is where there is no code graph.
pub fn with_signals(r: LeanReport, signals: &Option<GraphSignals>) -> (out: LeanReport)
    ensures
        match *signals {
            Some(s) => {
                &&& out.dead_code == Some(s.dead@.len() as usize)
                &&& out.misplaced == Some(s.misplaced@.len() as usize)
                &&& texts(out.deferred@) == gather(
                    r.deferred@.len() as int,
                    still_deferred(texts(r.deferred@)),
                )
                &&& out.files == r.files
                &&& out.composites == r.composites
                &&& out.empty_dirs == r.empty_dirs
                &&& out.dup_groups == r.dup_groups
                &&& out.cross_repo_mirrors == r.cross_repo_mirrors
                &&& out.max_depth == r.max_depth
            },
            None => out == r,
        },
{
    match signals {
        Some(s) => {
            let ghost ds = texts(r.deferred@);
            let mut left: Vec<String> = Vec::new();
            let mut i: usize = 0;
            while i < r.deferred.len()
                invariant
                    i <= r.deferred.len(),
                    ds == texts(r.deferred@),
                    texts(left@) =~= gather(i as int, still_deferred(ds)),
                decreases r.deferred.len() - i,
            {
                let d = &r.deferred[i];
                assert(ds[i as int] == r.deferred@[i as int]@);
                if !starts_with(d.as_str(), "dead-code") && !starts_with(
                    d.as_str(),
                    "misplacement",
                ) {
                    put(&mut left, d.clone());
                }
                i += 1;
            }
            LeanReport {
                files: r.files,
                composites: r.composites,
                empty_dirs: r.empty_dirs,
                dup_groups: r.dup_groups,
                cross_repo_mirrors: r.cross_repo_mirrors,
                max_depth: r.max_depth,
                dead_code: Some(s.dead.len()),
                misplaced: Some(s.misplaced.len()),
                deferred: left,
            }
        },
        None => r,
    }
}

// ── as findings ────────────────────────────────────────────────────────────────────────

/// Where the function at a position of a group stands, but for the first.
pub open spec fn other_site(g: CloneGroup) -> spec_fn(int) -> Seq<LocationView> {
    |k: int| seq![LocationView { file: g.sites@[k + 1].0@, line: Some(g.sites@[k + 1].2) }]
}

/// That functions were copied.
pub open spec fn clone_finding(gs: Seq<CloneGroup>) -> spec_fn(int) -> Seq<FindingView> {
    |i: int|
        seq![
            FindingView {
                rule: "clone-function"@,
                severity: Severity::Warning,
                message: "`"@ + gs[i].sites@[0].1@ + "` ("@ + dec(gs[i].lines as nat)
                    + " lines) is copy-pasted across "@ + dec(gs[i].sites@.len()) + " sites"@,
                location: LocationView {
                    file: gs[i].sites@[0].0@,
                    line: Some(gs[i].sites@[0].2),
                },
                related: gather(gs[i].sites@.len() - 1, other_site(gs[i])),
                fix: Some("extract the shared function to one home and call it from each site"@),
            },
        ]
}

/// Another copy of a file.
pub open spec fn other_copy(g: DupGroup) -> spec_fn(int) -> Seq<LocationView> {
    |k: int| seq![LocationView { file: g.files@[k + 1]@, line: None }]
}

/// That files are copies.
pub open spec fn copy_finding(gs: Seq<DupGroup>) -> spec_fn(int) -> Seq<FindingView> {
    |i: int|
        seq![
            FindingView {
                rule: "duplicate"@,
                severity: Severity::Warning,
                message: dec(gs[i].files@.len()) + " byte-identical copies ("@ + dec(
                    gs[i].loc as nat,
                ) + " lines each)"@,
                location: LocationView { file: gs[i].files@[0]@, line: None },
                related: gather(gs[i].files@.len() - 1, other_copy(gs[i])),
                fix: Some("keep one copy; replace the rest with a reference/import"@),
            },
        ]
}

/// That files are nearly the same.
pub open spec fn near_finding(ps: Seq<NearPair>) -> spec_fn(int) -> Seq<FindingView> {
    |i: int|
        seq![
            FindingView {
                rule: "near-duplicate"@,
                severity: Severity::Info,
                message: ps[i].percent@ + "% similar to "@ + ps[i].b@,
                location: LocationView { file: ps[i].a@, line: None },
                related: seq![LocationView { file: ps[i].b@, line: None }],
                fix: Some("reconcile the copies or extract the shared part"@),
            },
        ]
}

/// That a directory is empty.
pub open spec fn empty_finding(ds: Seq<Seq<char>>) -> spec_fn(int) -> Seq<FindingView> {
    |i: int|
        seq![
            FindingView {
                rule: "empty-dir"@,
                severity: Severity::Info,
                message: "empty directory (no tracked files)"@,
                location: LocationView { file: ds[i], line: None },
                related: seq![],
                fix: Some("remove, or populate"@),
            },
        ]
}

/// The name that a symbol is shown by.
pub open spec fn shown_symbol(s: Sym, otherwise: Seq<char>) -> Seq<char> {
    if s.display@.len() == 0 {
        otherwise
    } else {
        s.display@
    }
}

/// The line that a symbol is shown at, counted from one.
pub open spec fn shown_line(s: Sym) -> u32 {
    (if s.def.sl < 0 {
        1
    } else {
        s.def.sl + 1
    }) as u32
}

/// That nothing uses a symbol.
pub open spec fn dead_finding(ss: Seq<Sym>) -> spec_fn(int) -> Seq<FindingView> {
    |i: int|
        seq![
            FindingView {
                rule: "dead-code"@,
                severity: Severity::Warning,
                message: "`"@ + shown_symbol(ss[i], "<symbol>"@)
                    + "` unreachable from pub API / main / tests"@,
                location: LocationView { file: ss[i].file@, line: Some(shown_line(ss[i])) },
                related: seq![],
                fix: Some("sequester (dead code is moved to deprecated/, never deleted)"@),
            },
        ]
}

/// That files depend on each other in turn.
pub open spec fn tangle_finding(cs: Seq<Seq<Seq<char>>>) -> spec_fn(int) -> Seq<FindingView> {
    |i: int|
        seq![
            FindingView {
                rule: "structure-cycle"@,
                severity: Severity::Warning,
                message: "dependency cycle among "@ + dec(cs[i].len()) + " modules: "@ + joined(
                    cs[i],
                    " → "@,
                ),
                location: LocationView {
                    file: if cs[i].len() > 0 {
                        cs[i][0]
                    } else {
                        ""@
                    },
                    line: None,
                },
                related: seq![],
                fix: Some(
                    "break the cycle: extract the shared piece to a lower layer, or invert one edge"@,
                ),
            },
        ]
}

/// That a file belongs elsewhere.
pub open spec fn stray_finding(ms: Seq<Misplacement>) -> spec_fn(int) -> Seq<FindingView> {
    |i: int|
        seq![
            FindingView {
                rule: "misplaced"@,
                severity: Severity::Info,
                message: "used only from "@ + ms[i].suggested_dir@ + "/ ("@ + dec(
                    ms[i].dependents as nat,
                ) + " dependents)"@,
                location: LocationView { file: ms[i].file@, line: None },
                related: seq![],
                fix: Some(
                    "bonsai tidy --write → reference-safe move into "@ + ms[i].suggested_dir@
                        + "/"@,
                ),
            },
        ]
}

/// What a code graph adds; nothing where there is none.
pub open spec fn signal_findings(signals: Option<GraphSignals>) -> Seq<FindingView> {
    match signals {
        Some(s) => gather(s.dead@.len() as int, dead_finding(s.dead@)) + gather(
            s.cycles@.len() as int,
            tangle_finding(groups(s.cycles@)),
        ) + gather(s.misplaced@.len() as int, stray_finding(s.misplaced@)),
        None => seq![],
    }
}

/// All findings on how lean a repository is.
pub open spec fn lean_findings_of(
    forgotten: Seq<FindingView>,
    clones: Seq<CloneGroup>,
    r: LeanReport,
    near: Seq<NearPair>,
    signals: Option<GraphSignals>,
) -> Seq<FindingView> {
    forgotten + gather(clones.len() as int, clone_finding(clones)) + gather(
        r.dup_groups@.len() as int,
        copy_finding(r.dup_groups@),
    ) + gather(near.len() as int, near_finding(near)) + gather(
        r.empty_dirs@.len() as int,
        empty_finding(texts(r.empty_dirs@)),
    ) + signal_findings(signals)
}

fn put_place(v: &mut Vec<Location>, l: Location)
    ensures
        location_views(final(v)@) == location_views(old(v)@).push(l@),
{
    let ghost before = location_views(v@);
    v.push(l);
    assert(location_views(v@) =~= before.push(l@));
}

fn list_clones(gs: &Vec<CloneGroup>) -> (r: Vec<Finding>)
    requires
        forall|i: int| 0 <= i < gs@.len() ==> (#[trigger] gs@[i]).sites@.len() > 0,
    ensures
        finding_views(r@) == gather(gs@.len() as int, clone_finding(gs@)),
{
    let mut out: Vec<Finding> = Vec::new();
    let mut i: usize = 0;
    while i < gs.len()
        invariant
            i <= gs.len(),
            forall|i: int| 0 <= i < gs@.len() ==> (#[trigger] gs@[i]).sites@.len() > 0,
            finding_views(out@) =~= gather(i as int, clone_finding(gs@)),
        decreases gs.len() - i,
    {
        let g = &gs[i];
        let mut related: Vec<Location> = Vec::new();
        let mut k: usize = 1;
        while k < g.sites.len()
            invariant
                1 <= k <= g.sites.len(),
                location_views(related@) =~= gather(k - 1, other_site(*g)),
            decreases g.sites.len() - k,
        {
            put_place(&mut related, Location::at(g.sites[k].0.clone(), g.sites[k].2));
            k += 1;
        }
        let message = cat6(
            "`",
            g.sites[0].1.as_str(),
            "` (",
            decimal_usize(g.lines).as_str(),
            " lines) is copy-pasted across ",
            cat2(decimal_usize(g.sites.len()).as_str(), " sites").as_str(),
        );
        let ghost goal = (clone_finding(gs@))(i as int)[0];
        assert(message@ =~= goal.message);
        let f = Finding::new(
            "clone-function",
            Severity::Warning,
            message,
            Location::at(g.sites[0].0.clone(), g.sites[0].2),
        ).with_related(related).with_fix(
            "extract the shared function to one home and call it from each site".to_owned(),
        );
        assert(f@ =~= goal);
        emit(&mut out, f);
        i += 1;
    }
    out
}

fn list_copies(gs: &Vec<DupGroup>) -> (r: Vec<Finding>)
    requires
        forall|i: int| 0 <= i < gs@.len() ==> (#[trigger] gs@[i]).files@.len() > 0,
    ensures
        finding_views(r@) == gather(gs@.len() as int, copy_finding(gs@)),
{
    let mut out: Vec<Finding> = Vec::new();
    let mut i: usize = 0;
    while i < gs.len()
        invariant
            i <= gs.len(),
            forall|i: int| 0 <= i < gs@.len() ==> (#[trigger] gs@[i]).files@.len() > 0,
            finding_views(out@) =~= gather(i as int, copy_finding(gs@)),
        decreases gs.len() - i,
    {
        let g = &gs[i];
        let mut related: Vec<Location> = Vec::new();
        let mut k: usize = 1;
        while k < g.files.len()
            invariant
                1 <= k <= g.files.len(),
                location_views(related@) =~= gather(k - 1, other_copy(*g)),
            decreases g.files.len() - k,
        {
            put_place(&mut related, Location::file(g.files[k].clone()));
            k += 1;
        }
        let ghost goal = (copy_finding(gs@))(i as int)[0];
        let f = Finding::new(
            "duplicate",
            Severity::Warning,
            cat4(
                decimal_usize(g.files.len()).as_str(),
                " byte-identical copies (",
                decimal_usize(g.loc).as_str(),
                " lines each)",
            ),
            Location::file(g.files[0].clone()),
        ).with_related(related).with_fix(
            "keep one copy; replace the rest with a reference/import".to_owned(),
        );
        assert(f@ =~= goal);
        emit(&mut out, f);
        i += 1;
    }
    out
}

fn list_near(ps: &Vec<NearPair>) -> (r: Vec<Finding>)
    ensures
        finding_views(r@) == gather(ps@.len() as int, near_finding(ps@)),
{
    let mut out: Vec<Finding> = Vec::new();
    let mut i: usize = 0;
    while i < ps.len()
        invariant
            i <= ps.len(),
            finding_views(out@) =~= gather(i as int, near_finding(ps@)),
        decreases ps.len() - i,
    {
        let p = &ps[i];
        let mut related: Vec<Location> = Vec::new();
        put_place(&mut related, Location::file(p.b.clone()));
        let ghost goal = (near_finding(ps@))(i as int)[0];
        assert(location_views(related@) =~= goal.related);
        let f = Finding::new(
            "near-duplicate",
            Severity::Info,
            cat3(p.percent.as_str(), "% similar to ", p.b.as_str()),
            Location::file(p.a.clone()),
        ).with_related(related).with_fix(
            "reconcile the copies or extract the shared part".to_owned(),
        );
        assert(f@ =~= goal);
        emit(&mut out, f);
        i += 1;
    }
    out
}

fn list_empty(ds: &Vec<String>) -> (r: Vec<Finding>)
    ensures
        finding_views(r@) == gather(ds@.len() as int, empty_finding(texts(ds@))),
{
    let ghost all = texts(ds@);
    let mut out: Vec<Finding> = Vec::new();
    let mut i: usize = 0;
    while i < ds.len()
        invariant
            i <= ds.len(),
            all == texts(ds@),
            finding_views(out@) =~= gather(i as int, empty_finding(all)),
        decreases ds.len() - i,
    {
        assert(all[i as int] == ds@[i as int]@);
        let f = Finding::new(
            "empty-dir",
            Severity::Info,
            "empty directory (no tracked files)".to_owned(),
            Location::file(ds[i].clone()),
        ).with_fix("remove, or populate".to_owned());
        assert(f@ =~= (empty_finding(all))(i as int)[0]);
        emit(&mut out, f);
        i += 1;
    }
    out
}

fn name_shown<'a>(s: &'a Sym, otherwise: &'a str) -> (r: &'a str)
    ensures
        r@ == shown_symbol(*s, otherwise@),
{
    if chars(s.display.as_str()).len() == 0 {
        otherwise
    } else {
        s.display.as_str()
    }
}

fn line_shown(s: &Sym) -> (r: u32)
    ensures
        r == shown_line(*s),
{
    if s.def.sl < 0 {
        1
    } else {
        s.def.sl as u32 + 1
    }
}

fn list_dead(ss: &Vec<Sym>) -> (r: Vec<Finding>)
    ensures
        finding_views(r@) == gather(ss@.len() as int, dead_finding(ss@)),
{
    let mut out: Vec<Finding> = Vec::new();
    let mut i: usize = 0;
    while i < ss.len()
        invariant
            i <= ss.len(),
            finding_views(out@) =~= gather(i as int, dead_finding(ss@)),
        decreases ss.len() - i,
    {
        let s = &ss[i];
        let f = Finding::new(
            "dead-code",
            Severity::Warning,
            cat3("`", name_shown(s, "<symbol>"), "` unreachable from pub API / main / tests"),
            Location::at(s.file.clone(), line_shown(s)),
        ).with_fix("sequester (dead code is moved to deprecated/, never deleted)".to_owned());
        assert(f@ =~= (dead_finding(ss@))(i as int)[0]);
        emit(&mut out, f);
        i += 1;
    }
    out
}

fn list_tangles(cs: &Vec<Vec<String>>) -> (r: Vec<Finding>)
    ensures
        finding_views(r@) == gather(cs@.len() as int, tangle_finding(groups(cs@))),
{
    let ghost all = groups(cs@);
    let mut out: Vec<Finding> = Vec::new();
    let mut i: usize = 0;
    while i < cs.len()
        invariant
            i <= cs.len(),
            all == groups(cs@),
            finding_views(out@) =~= gather(i as int, tangle_finding(all)),
        decreases cs.len() - i,
    {
        let c = &cs[i];
        assert(all[i as int] == texts(c@));
        assert(texts(c@).len() == c@.len());
        let head = if c.len() > 0 {
            c[0].clone()
        } else {
            "".to_owned()
        };
        let f = Finding::new(
            "structure-cycle",
            Severity::Warning,
            cat4(
                "dependency cycle among ",
                decimal_usize(c.len()).as_str(),
                " modules: ",
                join(c, " → ").as_str(),
            ),
            Location::file(head),
        ).with_fix(
            "break the cycle: extract the shared piece to a lower layer, or invert one edge".to_owned(),
        );
        assert(f@ =~= (tangle_finding(all))(i as int)[0]);
        emit(&mut out, f);
        i += 1;
    }
    out
}

fn list_strays(ms: &Vec<Misplacement>) -> (r: Vec<Finding>)
    ensures
        finding_views(r@) == gather(ms@.len() as int, stray_finding(ms@)),
{
    let mut out: Vec<Finding> = Vec::new();
    let mut i: usize = 0;
    while i < ms.len()
        invariant
            i <= ms.len(),
            finding_views(out@) =~= gather(i as int, stray_finding(ms@)),
        decreases ms.len() - i,
    {
        let m = &ms[i];
        let f = Finding::new(
            "misplaced",
            Severity::Info,
            cat5(
                "used only from ",
                m.suggested_dir.as_str(),
                "/ (",
                decimal_usize(m.dependents).as_str(),
                " dependents)",
            ),
            Location::file(m.file.clone()),
        ).with_fix(
            cat3(
                "bonsai tidy --write → reference-safe move into ",
                m.suggested_dir.as_str(),
                "/",
            ),
        );
        assert(f@ =~= (stray_finding(ms@))(i as int)[0]);
        emit(&mut out, f);
        i += 1;
    }
    out
}

/// All findings on how lean a repository is: what was forgotten, which functions and files are
/// copies or nearly so, which directories are empty and, where there is a code graph, what
/// nothing uses, what is tangled and what belongs elsewhere.
pub fn lean_findings(
    forgotten: Vec<Finding>,
    clones: &Vec<CloneGroup>,
    report: &LeanReport,
    near: &Vec<NearPair>,
    signals: &Option<GraphSignals>,
) -> (r: Vec<Finding>)
    requires
        forall|i: int| 0 <= i < clones@.len() ==> (#[trigger] clones@[i]).sites@.len() > 0,
        forall|i: int|
            0 <= i < report.dup_groups@.len() ==> (#[trigger] report.dup_groups@[i]).files@.len()
                > 0,
    ensures
        finding_views(r@) == lean_findings_of(
            finding_views(forgotten@),
            clones@,
            *report,
            near@,
            *signals,
        ),
{
    let mut out = forgotten;
    emit_all(&mut out, list_clones(clones));
    emit_all(&mut out, list_copies(&report.dup_groups));
    emit_all(&mut out, list_near(near));
    emit_all(&mut out, list_empty(&report.empty_dirs));
    let ghost before = finding_views(out@);
    match signals {
        Some(s) => {
            let mut more = list_dead(&s.dead);
            emit_all(&mut more, list_tangles(&s.cycles));
            emit_all(&mut more, list_strays(&s.misplaced));
            assert(finding_views(more@) =~= signal_findings(*signals));
            emit_all(&mut out, more);
        },
        None => {
            assert(finding_views(out@) =~= before + signal_findings(*signals));
        },
    }
    out
}

// ── as lines to read ───────────────────────────────────────────────────────────────────

/// How many of `len` are shown where at most `most` are.
pub open spec fn shown(len: nat, most: int) -> int {
    if len < most {
        len as int
    } else {
        most
    }
}

fn shown_count(len: usize, most: usize) -> (r: usize)
    ensures
        r == shown(len as nat, most as int),
        r <= len,
{
    if len < most {
        len
    } else {
        most
    }
}

/// The line on the structure.
pub open spec fn structure_line(r: LeanReport) -> Seq<char> {
    "bonsai lean — "@ + dec(r.files as nat) + " files, "@ + dec(r.composites as nat)
        + " composites, depth "@ + dec(r.max_depth as nat)
}

/// The line on the scan, where there is anything to say.
pub open spec fn scan_lines(scan: Scan) -> Seq<Seq<char>> {
    if scan.cache_hits > 0 || scan.over_cap > 0 || scan.unreadable > 0 {
        seq![
            "  scan           : "@ + dec(scan.cache_hits as nat) + " cache hit(s), "@ + dec(
                scan.over_cap as nat,
            ) + " over-cap, "@ + dec(scan.unreadable as nat) + " unreadable"@,
        ]
    } else {
        seq![]
    }
}

/// The line on a number, where it was measured.
pub open spec fn measured_lines(label: Seq<char>, n: Option<usize>) -> Seq<Seq<char>> {
    match n {
        Some(n) => seq![label + dec(n as nat) + "  (SCIP-measured)"@],
        None => seq![],
    }
}

/// The line on files that depend on each other in turn.
pub open spec fn tangle_line(cs: Seq<Seq<Seq<char>>>) -> spec_fn(int) -> Seq<Seq<char>> {
    |i: int| seq!["    ⟲ "@ + joined(cs[i], " → "@)]
}

/// The lines on files that depend on each other in turn, where there are any.
pub open spec fn tangle_lines(signals: Option<GraphSignals>) -> Seq<Seq<char>> {
    match signals {
        Some(s) => if s.cycles@.len() == 0 {
            seq![]
        } else {
            seq![
                "  dependency cycles: "@ + dec(s.cycles@.len())
                    + "  (mutually-entangled module groups)"@,
            ] + gather(shown(s.cycles@.len(), 4), tangle_line(groups(s.cycles@)))
        },
        None => seq![],
    }
}

/// How many of the first `n` findings are of a rule.
pub open spec fn of_rule(fs: Seq<FindingView>, rule: Seq<char>, n: int) -> nat
    decreases n,
{
    if n <= 0 {
        0
    } else {
        of_rule(fs, rule, n - 1) + (if fs[n - 1].rule == rule {
            1nat
        } else {
            0nat
        })
    }
}

/// The line on the file at a position that nothing takes in, where it is among the first six.
pub open spec fn unwired_line(fs: Seq<FindingView>) -> spec_fn(int) -> Seq<Seq<char>> {
    |i: int|
        if fs[i].rule == "forgotten-unwired"@ && of_rule(fs, "forgotten-unwired"@, i) < 6 {
            seq!["    ⚠ "@ + fs[i].location.file]
        } else {
            seq![]
        }
}

/// The lines on what was forgotten, where anything was.
pub open spec fn forgotten_lines(fs: Seq<FindingView>) -> Seq<Seq<char>> {
    let unwired = of_rule(fs, "forgotten-unwired"@, fs.len() as int);
    let undoc = of_rule(fs, "forgotten-undoc"@, fs.len() as int);
    if unwired == 0 && undoc == 0 {
        seq![]
    } else {
        seq![
            "  forgotten      : "@ + dec(unwired) + " unwired module(s), "@ + dec(undoc)
                + " undocumented pub item(s)"@,
        ] + gather(fs.len() as int, unwired_line(fs))
    }
}

/// The name of the function at a position of a group.
pub open spec fn site_name(g: CloneGroup) -> spec_fn(int) -> Seq<Seq<char>> {
    |k: int| seq![g.sites@[k].1@]
}

/// The line on functions that were copied.
pub open spec fn clone_line(gs: Seq<CloneGroup>) -> spec_fn(int) -> Seq<Seq<char>> {
    |i: int|
        seq![
            "    ⧉ "@ + dec(gs[i].lines as nat) + " lines ×"@ + dec(gs[i].sites@.len()) + ": "@
                + joined(gather(gs[i].sites@.len() as int, site_name(gs[i])), ", "@),
        ]
}

/// The lines on functions that were copied, where there are any.
pub open spec fn clone_lines(gs: Seq<CloneGroup>) -> Seq<Seq<char>> {
    if gs.len() == 0 {
        seq![]
    } else {
        seq!["  function clones: "@ + dec(gs.len()) + " group(s) (copy-pasted logic)"@] + gather(
            shown(gs.len(), 6),
            clone_line(gs),
        )
    }
}

/// The lines on copies: the score, which is given, and how much is redundant.
pub open spec fn score_lines(r: LeanReport, score: Seq<char>) -> Seq<Seq<char>> {
    seq![
        "  leanness score : "@ + score + "  (1.0 = no measured waste)"@,
        "  duplicate files: "@ + dec(r.redundant_files() as nat) + " across "@ + dec(
            r.dup_groups@.len(),
        ) + " group(s), "@ + dec(
            wasted_upto(r.dup_groups@, r.dup_groups@.len() as int) as nat,
        ) + " redundant LOC"@,
    ] + (if r.cross_repo_mirrors > 0 {
        seq![
            "  cross-repo mirrors: "@ + dec(r.cross_repo_mirrors as nat)
                + " (identical across sub-repos — NOT counted as waste)"@,
        ]
    } else {
        seq![]
    })
}

/// The line on files that are nearly the same.
pub open spec fn near_line(ps: Seq<NearPair>) -> spec_fn(int) -> Seq<Seq<char>> {
    |i: int| seq!["    "@ + ps[i].percent@ + "%  "@ + ps[i].a@ + "  ~  "@ + ps[i].b@]
}

/// The lines on files that are nearly the same.
pub open spec fn near_lines(ps: Seq<NearPair>) -> Seq<Seq<char>> {
    seq![
        "  near-duplicates: "@ + dec(ps.len()) + " pair(s) (≥0.85 similar, not identical)"@,
    ] + gather(shown(ps.len(), 8), near_line(ps))
}

/// The line on copies of a file.
pub open spec fn copy_line(gs: Seq<DupGroup>) -> spec_fn(int) -> Seq<Seq<char>> {
    |i: int| seq!["    ×"@ + dec(gs[i].files@.len()) + "  "@ + joined(texts(gs[i].files@), "  ≡  "@)]
}

/// The lines on empty directories and on copies of files.
pub open spec fn waste_lines(r: LeanReport) -> Seq<Seq<char>> {
    let empty = texts(r.empty_dirs@);
    seq!["  empty dirs     : "@ + dec(empty.len())] + gather(
        shown(r.dup_groups@.len(), 12),
        copy_line(r.dup_groups@),
    ) + (if empty.len() == 0 {
        seq![]
    } else {
        seq![
            "  empty: "@ + joined(empty.take(shown(empty.len(), 8)), ", "@) + (if empty.len() > 8 {
                " …"@
            } else {
                ""@
            }),
        ]
    })
}

/// The line on what was not measured.
pub open spec fn deferred_line(ds: Seq<Seq<char>>) -> spec_fn(int) -> Seq<Seq<char>> {
    |i: int| seq!["    · "@ + ds[i]]
}

/// The lines on what was not measured. It is never shown as nothing.
pub open spec fn deferred_lines(ds: Seq<Seq<char>>) -> Seq<Seq<char>> {
    if ds.len() == 0 {
        seq!["  deferred       : none — every signal measured"@]
    } else {
        seq!["  deferred (unmeasured — never faked as 0):"@] + gather(
            ds.len() as int,
            deferred_line(ds),
        )
    }
}

/// All lines on how lean a repository is.
pub open spec fn lean_lines_of(
    r: LeanReport,
    scan: Scan,
    signals: Option<GraphSignals>,
    forgotten: Seq<FindingView>,
    clones: Seq<CloneGroup>,
    near: Seq<NearPair>,
    score: Seq<char>,
) -> Seq<Seq<char>> {
    seq![structure_line(r)] + scan_lines(scan) + measured_lines(
        "  dead symbols   : "@,
        r.dead_code,
    ) + measured_lines("  misplaced files: "@, r.misplaced) + tangle_lines(signals)
        + forgotten_lines(forgotten) + clone_lines(clones) + score_lines(r, score) + near_lines(
        near,
    ) + waste_lines(r) + deferred_lines(texts(r.deferred@))
}

fn list_structure(r: &LeanReport) -> (out: Vec<String>)
    ensures
        texts(out@) == seq![structure_line(*r)],
{
    let mut out: Vec<String> = Vec::new();
    put(
        &mut out,
        cat6(
            "bonsai lean — ",
            decimal_usize(r.files).as_str(),
            " files, ",
            decimal_usize(r.composites).as_str(),
            " composites, depth ",
            decimal_usize(r.max_depth).as_str(),
        ),
    );
    assert(texts(out@) =~= seq![structure_line(*r)]);
    out
}

fn list_scan(scan: &Scan) -> (out: Vec<String>)
    ensures
        texts(out@) == scan_lines(*scan),
{
    let mut out: Vec<String> = Vec::new();
    if scan.cache_hits > 0 || scan.over_cap > 0 || scan.unreadable > 0 {
        put(
            &mut out,
            cat7(
                "  scan           : ",
                decimal_usize(scan.cache_hits).as_str(),
                " cache hit(s), ",
                decimal_usize(scan.over_cap).as_str(),
                " over-cap, ",
                decimal_usize(scan.unreadable).as_str(),
                " unreadable",
            ),
        );
    }
    assert(texts(out@) =~= scan_lines(*scan));
    out
}

fn list_measured(label: &str, n: Option<usize>) -> (out: Vec<String>)
    ensures
        texts(out@) == measured_lines(label@, n),
{
    let mut out: Vec<String> = Vec::new();
    if let Some(k) = n {
        put(&mut out, cat3(label, decimal_usize(k).as_str(), "  (SCIP-measured)"));
    }
    assert(texts(out@) =~= measured_lines(label@, n));
    out
}

fn list_tangle_lines(signals: &Option<GraphSignals>) -> (out: Vec<String>)
    ensures
        texts(out@) == tangle_lines(*signals),
{
    let mut out: Vec<String> = Vec::new();
    match signals {
        Some(s) => {
            if s.cycles.len() > 0 {
                let ghost all = groups(s.cycles@);
                put(
                    &mut out,
                    cat3(
                        "  dependency cycles: ",
                        decimal_usize(s.cycles.len()).as_str(),
                        "  (mutually-entangled module groups)",
                    ),
                );
                let ghost head = texts(out@);
                let most = shown_count(s.cycles.len(), 4);
                let mut i: usize = 0;
                while i < most
                    invariant
                        i <= most <= s.cycles@.len(),
                        all == groups(s.cycles@),
                        texts(out@) =~= head + gather(i as int, tangle_line(all)),
                    decreases most - i,
                {
                    assert(all[i as int] == texts(s.cycles@[i as int]@));
                    put(&mut out, cat2("    ⟲ ", join(&s.cycles[i], " → ").as_str()));
                    i += 1;
                }
            }
        },
        None => {},
    }
    assert(texts(out@) =~= tangle_lines(*signals));
    out
}

fn count_rule(fs: &Vec<Finding>, rule: &str) -> (n: usize)
    ensures
        n == of_rule(finding_views(fs@), rule@, fs@.len() as int),
{
    let ghost all = finding_views(fs@);
    let mut n: usize = 0;
    let mut i: usize = 0;
    while i < fs.len()
        invariant
            i <= fs.len(),
            all == finding_views(fs@),
            n <= i,
            n == of_rule(all, rule@, i as int),
        decreases fs.len() - i,
    {
        assert(all[i as int] == fs@[i as int]@);
        if same(fs[i].rule.as_str(), rule) {
            n += 1;
        }
        i += 1;
    }
    n
}

fn list_forgotten(fs: &Vec<Finding>) -> (out: Vec<String>)
    ensures
        texts(out@) == forgotten_lines(finding_views(fs@)),
{
    let ghost all = finding_views(fs@);
    assert(all.len() == fs@.len());
    let unwired = count_rule(fs, "forgotten-unwired");
    let undoc = count_rule(fs, "forgotten-undoc");
    let mut out: Vec<String> = Vec::new();
    if unwired == 0 && undoc == 0 {
        assert(texts(out@) =~= forgotten_lines(all));
        return out;
    }
    put(
        &mut out,
        cat5(
            "  forgotten      : ",
            decimal_usize(unwired).as_str(),
            " unwired module(s), ",
            decimal_usize(undoc).as_str(),
            " undocumented pub item(s)",
        ),
    );
    let ghost head = texts(out@);
    let mut seen: usize = 0;
    let mut i: usize = 0;
    while i < fs.len()
        invariant
            i <= fs.len(),
            all == finding_views(fs@),
            seen <= i,
            seen == of_rule(all, "forgotten-unwired"@, i as int),
            texts(out@) =~= head + gather(i as int, unwired_line(all)),
        decreases fs.len() - i,
    {
        assert(all[i as int] == fs@[i as int]@);
        if same(fs[i].rule.as_str(), "forgotten-unwired") {
            if seen < 6 {
                put(&mut out, cat2("    ⚠ ", fs[i].location.file.as_str()));
            }
            seen += 1;
        }
        i += 1;
    }
    assert(texts(out@) =~= forgotten_lines(all));
    out
}

fn list_names(g: &CloneGroup) -> (out: Vec<String>)
    ensures
        texts(out@) == gather(g.sites@.len() as int, site_name(*g)),
{
    let mut out: Vec<String> = Vec::new();
    let mut k: usize = 0;
    while k < g.sites.len()
        invariant
            k <= g.sites.len(),
            texts(out@) =~= gather(k as int, site_name(*g)),
        decreases g.sites.len() - k,
    {
        put(&mut out, g.sites[k].1.clone());
        k += 1;
    }
    out
}

fn list_clone_lines(gs: &Vec<CloneGroup>) -> (out: Vec<String>)
    ensures
        texts(out@) == clone_lines(gs@),
{
    let mut out: Vec<String> = Vec::new();
    if gs.len() > 0 {
        put(
            &mut out,
            cat3(
                "  function clones: ",
                decimal_usize(gs.len()).as_str(),
                " group(s) (copy-pasted logic)",
            ),
        );
        let ghost head = texts(out@);
        let most = shown_count(gs.len(), 6);
        let mut i: usize = 0;
        while i < most
            invariant
                i <= most <= gs@.len(),
                texts(out@) =~= head + gather(i as int, clone_line(gs@)),
            decreases most - i,
        {
            let g = &gs[i];
            put(
                &mut out,
                cat6(
                    "    ⧉ ",
                    decimal_usize(g.lines).as_str(),
                    " lines ×",
                    decimal_usize(g.sites.len()).as_str(),
                    ": ",
                    join(&list_names(g), ", ").as_str(),
                ),
            );
            i += 1;
        }
    }
    assert(texts(out@) =~= clone_lines(gs@));
    out
}

fn list_score(r: &LeanReport, score: &str) -> (out: Vec<String>)
    ensures
        texts(out@) == score_lines(*r, score@),
{
    let mut out: Vec<String> = Vec::new();
    put(&mut out, cat3("  leanness score : ", score, "  (1.0 = no measured waste)"));
    put(
        &mut out,
        cat7(
            "  duplicate files: ",
            decimal_usize(r.dup_files()).as_str(),
            " across ",
            decimal_usize(r.dup_groups.len()).as_str(),
            " group(s), ",
            decimal_usize(r.wasted_loc()).as_str(),
            " redundant LOC",
        ),
    );
    if r.cross_repo_mirrors > 0 {
        put(
            &mut out,
            cat3(
                "  cross-repo mirrors: ",
                decimal_usize(r.cross_repo_mirrors).as_str(),
                " (identical across sub-repos — NOT counted as waste)",
            ),
        );
    }
    assert(texts(out@) =~= score_lines(*r, score@));
    out
}

fn list_near_lines(ps: &Vec<NearPair>) -> (out: Vec<String>)
    ensures
        texts(out@) == near_lines(ps@),
{
    let mut out: Vec<String> = Vec::new();
    put(
        &mut out,
        cat3(
            "  near-duplicates: ",
            decimal_usize(ps.len()).as_str(),
            " pair(s) (≥0.85 similar, not identical)",
        ),
    );
    let ghost head = texts(out@);
    let most = shown_count(ps.len(), 8);
    let mut i: usize = 0;
    while i < most
        invariant
            i <= most <= ps@.len(),
            texts(out@) =~= head + gather(i as int, near_line(ps@)),
        decreases most - i,
    {
        let p = &ps[i];
        put(
            &mut out,
            cat6("    ", p.percent.as_str(), "%  ", p.a.as_str(), "  ~  ", p.b.as_str()),
        );
        i += 1;
    }
    assert(texts(out@) =~= near_lines(ps@));
    out
}

fn first_of(v: &Vec<String>, n: usize) -> (r: Vec<String>)
    requires
        n <= v@.len(),
    ensures
        texts(r@) == texts(v@).take(n as int),
{
    let ghost all = texts(v@);
    let mut r: Vec<String> = Vec::new();
    let mut i: usize = 0;
    while i < n
        invariant
            i <= n <= v@.len(),
            all == texts(v@),
            texts(r@) =~= all.take(i as int),
        decreases n - i,
    {
        put(&mut r, v[i].clone());
        i += 1;
    }
    r
}

fn list_waste(r: &LeanReport) -> (out: Vec<String>)
    ensures
        texts(out@) == waste_lines(*r),
{
    let ghost empty = texts(r.empty_dirs@);
    assert(empty.len() == r.empty_dirs@.len());
    let mut out: Vec<String> = Vec::new();
    put(&mut out, cat2("  empty dirs     : ", decimal_usize(r.empty_dirs.len()).as_str()));
    let ghost head = texts(out@);
    let most = shown_count(r.dup_groups.len(), 12);
    let mut i: usize = 0;
    while i < most
        invariant
            i <= most <= r.dup_groups@.len(),
            texts(out@) =~= head + gather(i as int, copy_line(r.dup_groups@)),
        decreases most - i,
    {
        let g = &r.dup_groups[i];
        put(
            &mut out,
            cat4(
                "    ×",
                decimal_usize(g.files.len()).as_str(),
                "  ",
                join(&g.files, "  ≡  ").as_str(),
            ),
        );
        i += 1;
    }
    let ghost upto = texts(out@);
    if r.empty_dirs.len() > 0 {
        let some = first_of(&r.empty_dirs, shown_count(r.empty_dirs.len(), 8));
        let more = if r.empty_dirs.len() > 8 {
            " …"
        } else {
            ""
        };
        put(&mut out, cat3("  empty: ", join(&some, ", ").as_str(), more));
    }
    assert(texts(out@) =~= waste_lines(*r));
    out
}

fn list_deferred(ds: &Vec<String>) -> (out: Vec<String>)
    ensures
        texts(out@) == deferred_lines(texts(ds@)),
{
    let ghost all = texts(ds@);
    assert(all.len() == ds@.len());
    let mut out: Vec<String> = Vec::new();
    if ds.len() == 0 {
        put(&mut out, "  deferred       : none — every signal measured".to_owned());
    } else {
        put(&mut out, "  deferred (unmeasured — never faked as 0):".to_owned());
        let ghost head = texts(out@);
        let mut i: usize = 0;
        while i < ds.len()
            invariant
                i <= ds.len(),
                all == texts(ds@),
                texts(out@) =~= head + gather(i as int, deferred_line(all)),
            decreases ds.len() - i,
        {
            assert(all[i as int] == ds@[i as int]@);
            put(&mut out, cat2("    · ", ds[i].as_str()));
            i += 1;
        }
    }
    assert(texts(out@) =~= deferred_lines(all));
    out
}

/// All lines on how lean a repository is. The score is given, written out.
pub fn lean_lines(
    report: &LeanReport,
    scan: &Scan,
    signals: &Option<GraphSignals>,
    forgotten: &Vec<Finding>,
    clones: &Vec<CloneGroup>,
    near: &Vec<NearPair>,
    score: &str,
) -> (r: Vec<String>)
    ensures
        texts(r@) == lean_lines_of(
            *report,
            *scan,
            *signals,
            finding_views(forgotten@),
            clones@,
            near@,
            score@,
        ),
{
    let mut out = list_structure(report);
    put_all(&mut out, &list_scan(scan));
    put_all(&mut out, &list_measured("  dead symbols   : ", report.dead_code));
    put_all(&mut out, &list_measured("  misplaced files: ", report.misplaced));
    put_all(&mut out, &list_tangle_lines(signals));
    put_all(&mut out, &list_forgotten(forgotten));
    put_all(&mut out, &list_clone_lines(clones));
    put_all(&mut out, &list_score(report, score));
    put_all(&mut out, &list_near_lines(near));
    put_all(&mut out, &list_waste(report));
    put_all(&mut out, &list_deferred(&report.deferred));
    out
}

/// What was not measured is said to be unmeasured, and never shown as nothing: without a code graph
/// there is no line on a number that only a code graph gives, and there is one on each of them
/// being left out.
pub proof fn unmeasured_is_said(
    r: LeanReport,
    scan: Scan,
    forgotten: Seq<FindingView>,
    clones: Seq<CloneGroup>,
    near: Seq<NearPair>,
    score: Seq<char>,
    d: Seq<char>,
)
    requires
        r.dead_code is None,
        r.misplaced is None,
        texts(r.deferred@).contains(d),
    ensures
        measured_lines("  dead symbols   : "@, r.dead_code).len() == 0,
        measured_lines("  misplaced files: "@, r.misplaced).len() == 0,
        lean_lines_of(r, scan, None, forgotten, clones, near, score).contains("    · "@ + d),
{
    let ds = texts(r.deferred@);
    let i = choose|i: int| 0 <= i < ds.len() && ds[i] == d;
    let line = "    · "@ + d;
    assert((deferred_line(ds))(i)[0] == line);
    assert((deferred_line(ds))(i).contains(line));
    gather_contains(ds.len() as int, deferred_line(ds), line);
    concat_contains(
        seq!["  deferred (unmeasured — never faked as 0):"@],
        gather(ds.len() as int, deferred_line(ds)),
        line,
    );
    let before = seq![structure_line(r)] + scan_lines(scan) + measured_lines(
        "  dead symbols   : "@,
        r.dead_code,
    ) + measured_lines("  misplaced files: "@, r.misplaced) + tangle_lines(None)
        + forgotten_lines(forgotten) + clone_lines(clones) + score_lines(r, score) + near_lines(
        near,
    ) + waste_lines(r);
    concat_contains(before, deferred_lines(ds), line);
}

// ── all of it at once ──────────────────────────────────────────────────────────────────

/// All that is measured of how lean a repository is.
pub struct Leanness {
    pub report: LeanReport,
    pub signals: Option<GraphSignals>,
    pub forgotten: Vec<Finding>,
    pub clones: Vec<CloneGroup>,
}

/// How many lines the body of a function has at least that counts as copied.
pub const CLONE_LINES: usize = 6;

/// Measures how lean a repository is: from its tree and a scan of its files, from its code graph
/// where there is one, from its sources in Rust, and from all sources that functions are copied
/// in.
pub fn measure_leanness(
    tree: &Tree,
    scan: &Scan,
    graph: Option<&CodeGraph>,
    sources: &Workspace,
    all_sources: &Workspace,
) -> (r: Leanness)
    requires
        tree.foldable(),
    ensures
        reports_structure(r.report, *tree),
        dup_views(r.report.dup_groups@) == dup_groups(scan.files@),
        r.report.cross_repo_mirrors == mirrors_upto(scan.files@, hashes(scan.files@).len() as int),
        r.signals is Some <==> graph is Some,
        graph is Some ==> lists_cycles(graph->0.file_deps@, groups(r.signals->0.cycles@))
            && lists_misplaced(graph->0.file_deps@, r.signals->0.misplaced@) && exists|
            roots: Seq<(Seq<char>, ())>,
        | #[trigger]
            roots_of(*graph->0, *sources, roots) && r.signals->0.dead@ == crate::order::arranged(
                gather(
                    graph->0.symbols@.len() as int,
                    dead_at(*graph->0, *sources, Seq::empty(), roots),
                ),
            ),
        graph is Some ==> r.report.dead_code == Some(r.signals->0.dead@.len() as usize)
            && r.report.misplaced == Some(r.signals->0.misplaced@.len() as usize)
            && texts(r.report.deferred@) == gather(2, still_deferred(unmeasured())),
        graph is None ==> r.report.dead_code is None && r.report.misplaced is None && texts(
            r.report.deferred@,
        ) == unmeasured(),
        finding_views(r.forgotten@) == crate::forgotten::forgotten(*sources),
        r.clones@.map_values(|g: CloneGroup| g@) == clone_groups(
            all_functions(*all_sources, CLONE_LINES as int),
        ),
        forall|i: int| 0 <= i < r.clones@.len() ==> (#[trigger] r.clones@[i]).sites@.len() > 1,
        forall|i: int|
            0 <= i < r.report.dup_groups@.len() ==> (#[trigger] r.report.dup_groups@[i]).files@.len()
                > 1,
{
    let signals = match graph {
        Some(g) => Some(GraphSignals::measure(g, sources)),
        None => None,
    };
    let bare = crate::lean::analyze_from_scan(tree, scan);
    let ghost told = texts(bare.deferred@);
    assert(told.len() == bare.deferred@.len());
    let report = with_signals(bare, &signals);
    let forgotten = crate::forgotten::evaluate(sources);
    let clones = crate::clones::function_clones(all_sources, CLONE_LINES);
    proof {
        let views = clones@.map_values(|g: CloneGroup| g@);
        assert forall|i: int| 0 <= i < clones@.len() implies (#[trigger] clones@[i]).sites@.len() > 1 by {
            assert(views[i] == clones@[i]@);
            assert(views.contains(views[i]));
            crate::clones::clone_groups_have_copies(
                all_functions(*all_sources, CLONE_LINES as int),
                views[i],
            );
            assert(views[i].sites.len() == clones@[i].sites@.len());
        }
        let dups = dup_views(report.dup_groups@);
        assert forall|i: int| 0 <= i < report.dup_groups@.len() implies (
        #[trigger] report.dup_groups@[i]).files@.len() > 1 by {
            assert(dups[i] == report.dup_groups@[i]@);
            assert(dups.contains(dups[i]));
            crate::lean::groups_have_copies(scan.files@, dups[i]);
            assert(dups[i].files.len() == report.dup_groups@[i].files@.len());
        }
    }
    Leanness { report, signals, forgotten, clones }
}

} // verus!
