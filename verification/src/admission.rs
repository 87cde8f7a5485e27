//! The admission of a change: what stands against the repository as a whole, what is let
//! through, and what is left to judge.
use vstd::prelude::*;

use crate::blueprint::{Blueprint, Lifecycle, WitnessResult};
use crate::config::{Contract, Rules};
use crate::contracts::contract_findings;
use crate::finding::{
    emit, emit_all, file_finding, finding_views, tally, Finding, FindingView, Location, Report,
    Severity,
};
use crate::moves::{extension, extension_of, Workspace};
use crate::order::{arranged, canonical, sorted_set, sorted_set_is_canonical, PathName, PathView};
use crate::rules::{apply_allow, apply_inline_suppression, judged, sift, unwaived};
use crate::scip::CodeGraph;
use crate::shape::BlueprintLock;
use crate::text::{
    ahead, cat2, cat3, cat4, cat5, cat7, chars, dec, decimal_usize, gather, gather_contains,
    gather_empty, holds, lines, lines_of, put, put_all, same, strip_suffix, text_opt, texts, trim,
    trimmed,
};
use crate::tree::Tree;

verus! {

// ── blueprints ─────────────────────────────────────────────────────────────────────────

/// The directory that blueprints are kept in.
pub open spec fn blueprint_dir() -> Seq<char> {
    ".bonsai/blueprints"@
}

/// The path of the entry at a position, where it is a blueprint.
pub open spec fn kept_blueprint(names: Seq<Seq<char>>) -> spec_fn(int) -> Seq<PathView> {
    |i: int|
        if extension_of(names[i]) == Some("toml"@) {
            seq![PathView { path: blueprint_dir() + "/"@ + names[i] }]
        } else {
            seq![]
        }
}

/// The blueprints of a repository, in the order of their paths: the one at its root, where there
/// is one, and those among the names of what is kept in the directory for them.
pub open spec fn blueprint_paths(at_root: bool, names: Seq<Seq<char>>) -> Seq<PathView> {
    arranged(
        (if at_root {
            seq![PathView { path: "bonsai.blueprint.toml"@ }]
        } else {
            seq![]
        }) + gather(names.len() as int, kept_blueprint(names)),
    )
}

/// The path of each.
pub open spec fn bare_paths(ps: Seq<PathView>) -> Seq<Seq<char>> {
    ps.map_values(|p: PathView| p.path)
}

/// Where the blueprints of a repository stand, in the order of their paths. `names` are the names
/// of what is kept in the directory for them.
pub fn discover_blueprints(at_root: bool, names: &Vec<String>) -> (r: Vec<String>)
    ensures
        texts(r@) == bare_paths(blueprint_paths(at_root, texts(names@))),
{
    let ghost all = texts(names@);
    let mut out: Vec<PathName> = Vec::new();
    if at_root {
        out.push(PathName { path: "bonsai.blueprint.toml".to_owned() });
    }
    let ghost base: Seq<PathView> = if at_root {
        seq![PathView { path: "bonsai.blueprint.toml"@ }]
    } else {
        seq![]
    };
    assert(out@.map_values(|p: PathName| p@) =~= base);
    let mut i: usize = 0;
    while i < names.len()
        invariant
            i <= names.len(),
            all == texts(names@),
            out@.map_values(|p: PathName| p@) =~= base + gather(i as int, kept_blueprint(all)),
        decreases names.len() - i,
    {
        assert(all[i as int] == names@[i as int]@);
        let ghost before = out@.map_values(|p: PathName| p@);
        let kept = match extension(names[i].as_str()) {
            Some(x) => same(x.as_str(), "toml"),
            None => false,
        };
        if kept {
            let p = PathName { path: cat3(".bonsai/blueprints", "/", names[i].as_str()) };
            assert(out@.push(p).map_values(|p: PathName| p@) =~= before.push(p@));
            out.push(p);
        }
        i += 1;
    }
    proof {
        crate::order::arranged_mapped(out@, |p: PathName| p@);
    }
    let sorted = crate::order::arrange(out);
    let ghost goal = bare_paths(blueprint_paths(at_root, all));
    assert(sorted@.map_values(|p: PathName| p@) =~= blueprint_paths(at_root, all));
    let mut r: Vec<String> = Vec::new();
    let mut i: usize = 0;
    while i < sorted.len()
        invariant
            i <= sorted.len(),
            sorted@.map_values(|p: PathName| p@) == blueprint_paths(at_root, all),
            goal == bare_paths(blueprint_paths(at_root, all)),
            texts(r@) =~= goal.take(i as int),
        decreases sorted.len() - i,
    {
        assert(sorted@.map_values(|p: PathName| p@)[i as int] == sorted@[i as int]@);
        put(&mut r, sorted[i].path.clone());
        assert(goal.take(i + 1) =~= goal.take(i as int).push(goal[i as int]));
        i += 1;
    }
    assert(goal.len() == sorted@.len());
    assert(goal.take(goal.len() as int) =~= goal);
    r
}

/// Where the lock of a blueprint stands: beside it.
pub open spec fn lock_place(path: Seq<char>) -> Seq<char> {
    match ahead(path, "toml"@) {
        Some(stem) => stem + "lock.json"@,
        None => path + ".lock.json"@,
    }
}

/// Where the lock of a blueprint stands.
pub fn lock_path(path: &str) -> (r: String)
    ensures
        r@ == lock_place(path@),
{
    match strip_suffix(path, "toml") {
        Some(stem) => cat2(stem.as_str(), "lock.json"),
        None => cat2(path, ".lock.json"),
    }
}

/// A blueprint that was found: what reading it gave, what reading its lock gave, and what its
/// witnesses came to where they were run.
pub struct Discovered {
    pub rel: String,
    pub loaded: Result<Blueprint, String>,
    pub lock: Result<BlueprintLock, String>,
    pub results: Vec<WitnessResult>,
}

/// What stands against a blueprint.
pub open spec fn lock_finding(file: Seq<char>, messages: Seq<Seq<char>>) -> spec_fn(int) -> Seq<
    FindingView,
> {
    |i: int| seq![file_finding("blueprint-lock"@, Severity::Error, messages[i], file, None)]
}

/// What stands against a blueprint, by message.
pub open spec fn lock_findings(file: Seq<char>, messages: Seq<Seq<char>>) -> Seq<FindingView> {
    gather(messages.len() as int, lock_finding(file, messages))
}

/// The first blueprint with an id, from position `i` on.
pub open spec fn blueprint_from(items: Seq<Discovered>, id: Seq<char>, i: int) -> Option<Blueprint>
    decreases items.len() - i,
{
    if i < 0 || i >= items.len() {
        None
    } else {
        match items[i].loaded {
            Ok(b) => if b.meta.id@ == id {
                Some(b)
            } else {
                blueprint_from(items, id, i + 1)
            },
            Err(_) => blueprint_from(items, id, i + 1),
        }
    }
}

/// What is wrong with what a blueprint takes over: nothing where it takes over from none; that
/// its predecessor is missing; or what of its predecessor it does not retain.
pub open spec fn succession_errors(items: Seq<Discovered>, b: Blueprint) -> Seq<Seq<char>> {
    match b.meta.supersedes {
        Some(id) => match blueprint_from(items, id@, 0) {
            Some(prior) => canonical(b.evolution_errors(prior)),
            None => seq![
                "blueprint '"@ + b.meta.id@ + "' supersedes missing blueprint '"@ + id@ + "'"@,
            ],
        },
        None => seq![],
    }
}

/// What a lock has against a blueprint.
#[verifier::opaque]
pub open spec fn lock_errors(l: BlueprintLock, b: Blueprint) -> Seq<Seq<char>> {
    canonical(b.errors() + l.departures(b))
}

/// Whether the witnesses of a blueprint may be run: it is locked, and the lock has nothing
/// against it.
pub open spec fn witnesses_due(b: Blueprint, lock: Result<BlueprintLock, String>) -> bool {
    b.meta.lifecycle == Lifecycle::Locked && match lock {
        Ok(l) => lock_errors(l, b).len() == 0,
        Err(_) => false,
    }
}

/// That a witness failed.
pub open spec fn failed_witness(results: Seq<WitnessResult>) -> spec_fn(int) -> Seq<Seq<char>> {
    |i: int|
        if results[i].passed {
            seq![]
        } else {
            seq!["witness '"@ + results[i].id@ + "' failed: "@ + results[i].detail@]
        }
}

/// What the lock of a blueprint and its witnesses have against it.
pub open spec fn pinned_errors(d: Discovered, b: Blueprint) -> Seq<Seq<char>> {
    if b.meta.lifecycle != Lifecycle::Locked {
        seq![]
    } else {
        match d.lock {
            Ok(l) => if lock_errors(l, b).len() == 0 {
                gather(d.results@.len() as int, failed_witness(d.results@))
            } else {
                lock_errors(l, b)
            },
            Err(e) => seq![e@],
        }
    }
}

/// All that is wrong with a blueprint that was found.
pub open spec fn discovered_errors(items: Seq<Discovered>, d: Discovered) -> Seq<Seq<char>> {
    match d.loaded {
        Ok(b) => canonical(b.errors()) + succession_errors(items, b) + pinned_errors(d, b),
        Err(e) => seq![e@],
    }
}

/// What stands against the blueprint at a position.
pub open spec fn discovered_findings(items: Seq<Discovered>) -> spec_fn(int) -> Seq<FindingView> {
    |i: int| lock_findings(items[i].rel@, discovered_errors(items, items[i]))
}

/// Whether the witnesses of a blueprint may be run. Only what the lock pins is run: a command
/// that was changed is refused before it can be.
pub fn may_run_witnesses(b: &Blueprint, lock: &Result<BlueprintLock, String>) -> (r: bool)
    ensures
        r == witnesses_due(*b, *lock),
{
    if b.meta.lifecycle != Lifecycle::Locked {
        return false;
    }
    match lock {
        Ok(l) => {
            let errs = list_lock_errors(l, b);
            assert(texts(errs@).len() == errs@.len());
            errs.len() == 0
        },
        Err(_e) => false,
    }
}

fn find_blueprint<'a>(items: &'a Vec<Discovered>, id: &str) -> (r: Option<&'a Blueprint>)
    ensures
        match r {
            Some(b) => blueprint_from(items@, id@, 0) == Some(*b),
            None => blueprint_from(items@, id@, 0) is None,
        },
{
    let mut i: usize = 0;
    while i < items.len()
        invariant
            i <= items.len(),
            blueprint_from(items@, id@, 0) == blueprint_from(items@, id@, i as int),
        decreases items.len() - i,
    {
        match &items[i].loaded {
            Ok(b) => {
                if same(b.meta.id.as_str(), id) {
                    return Some(b);
                }
            },
            Err(_e) => {},
        }
        i += 1;
    }
    None
}

fn add_succession(items: &Vec<Discovered>, b: &Blueprint, out: &mut Vec<String>)
    ensures
        texts(final(out)@) == texts(old(out)@) + succession_errors(items@, *b),
{
    let ghost before = texts(out@);
    match &b.meta.supersedes {
        Some(id) => match find_blueprint(items, id.as_str()) {
            Some(prior) => {
                let errs = Blueprint::validate_evolution(prior, b);
                proof {
                    sorted_set_is_canonical(texts(errs@), b.evolution_errors(*prior));
                }
                put_all(out, &errs);
            },
            None => {
                put(
                    out,
                    cat5(
                        "blueprint '",
                        b.meta.id.as_str(),
                        "' supersedes missing blueprint '",
                        id.as_str(),
                        "'",
                    ),
                );
                assert(texts(out@) =~= before + succession_errors(items@, *b));
            },
        },
        None => {
            assert(texts(out@) =~= before + succession_errors(items@, *b));
        },
    }
}

fn list_lock_errors(l: &BlueprintLock, b: &Blueprint) -> (r: Vec<String>)
    ensures
        texts(r@) == lock_errors(*l, *b),
{
    let errs = l.check(b);
    proof {
        reveal(lock_errors);
        sorted_set_is_canonical(texts(errs@), b.errors() + l.departures(*b));
    }
    errs
}

fn list_failed(results: &Vec<WitnessResult>) -> (r: Vec<String>)
    ensures
        texts(r@) == gather(results@.len() as int, failed_witness(results@)),
{
    let mut out: Vec<String> = Vec::new();
    let mut i: usize = 0;
    while i < results.len()
        invariant
            i <= results.len(),
            texts(out@) =~= gather(i as int, failed_witness(results@)),
        decreases results.len() - i,
    {
        let w = &results[i];
        if !w.passed {
            put(&mut out, cat4("witness '", w.id.as_str(), "' failed: ", w.detail.as_str()));
        }
        i += 1;
    }
    out
}

fn add_pinned(d: &Discovered, b: &Blueprint, out: &mut Vec<String>)
    ensures
        texts(final(out)@) == texts(old(out)@) + pinned_errors(*d, *b),
{
    let ghost base = texts(out@);
    if b.meta.lifecycle != Lifecycle::Locked {
        assert(texts(out@) =~= base + pinned_errors(*d, *b));
        return ;
    }
    match &d.lock {
        Ok(l) => {
            let errs = list_lock_errors(l, b);
            assert(texts(errs@).len() == errs@.len());
            if errs.len() > 0 {
                put_all(out, &errs);
                return ;
            }
            put_all(out, &list_failed(&d.results));
        },
        Err(e) => {
            put(out, e.clone());
            assert(texts(out@) =~= base + pinned_errors(*d, *b));
        },
    }
}

fn list_errors(items: &Vec<Discovered>, d: &Discovered) -> (r: Vec<String>)
    ensures
        texts(r@) == discovered_errors(items@, *d),
{
    match &d.loaded {
        Ok(b) => {
            let mut out = b.validate();
            proof {
                sorted_set_is_canonical(texts(out@), b.errors());
            }
            add_succession(items, b, &mut out);
            add_pinned(d, b, &mut out);
            out
        },
        Err(e) => {
            let mut out: Vec<String> = Vec::new();
            put(&mut out, e.clone());
            assert(texts(out@) =~= seq![e@]);
            out
        },
    }
}

/// What stands against the blueprints of a repository: against one that cannot be read, that it
/// cannot; against each other, what is wrong with it, what it does not retain of the blueprint
/// that it takes over from, and, where it is locked, what its lock and its witnesses have against
/// it.
pub fn check_blueprints(items: &Vec<Discovered>) -> (r: Vec<Finding>)
    ensures
        finding_views(r@) == gather(items@.len() as int, discovered_findings(items@)),
{
    let mut out: Vec<Finding> = Vec::new();
    let mut i: usize = 0;
    while i < items.len()
        invariant
            i <= items.len(),
            finding_views(out@) =~= gather(i as int, discovered_findings(items@)),
        decreases items.len() - i,
    {
        let d = &items[i];
        let errs = list_errors(items, d);
        let ghost all = texts(errs@);
        let ghost base = finding_views(out@);
        let mut k: usize = 0;
        while k < errs.len()
            invariant
                k <= errs.len(),
                all == texts(errs@),
                finding_views(out@) =~= base + gather(k as int, lock_finding(d.rel@, all)),
            decreases errs.len() - k,
        {
            assert(all[k as int] == errs@[k as int]@);
            emit(
                &mut out,
                Finding::new(
                    "blueprint-lock",
                    Severity::Error,
                    errs[k].clone(),
                    Location::file(d.rel.clone()),
                ),
            );
            k += 1;
        }
        assert(all.len() == errs@.len());
        i += 1;
    }
    out
}

/// A change is refused unless every blueprint is in order: where nothing stands against the
/// blueprints, each could be read and is coherent; each that takes over from another retains all
/// that this one promised, and the other is there; and each that is locked is what its lock pins,
/// with no witness failed.
pub proof fn clean_blueprints_hold(items: Seq<Discovered>, i: int)
    requires
        gather(items.len() as int, discovered_findings(items)).len() == 0,
        0 <= i < items.len(),
    ensures
        items[i].loaded is Ok,
        items[i].loaded->Ok_0.coherent(),
        items[i].loaded->Ok_0.meta.supersedes is Some ==> {
            let id = items[i].loaded->Ok_0.meta.supersedes->0@;
            &&& blueprint_from(items, id, 0) is Some
            &&& blueprint_from(items, id, 0)->0.meta.id@ == id
            &&& items[i].loaded->Ok_0.retains(blueprint_from(items, id, 0)->0)
        },
        items[i].loaded->Ok_0.meta.lifecycle == Lifecycle::Locked ==> {
            &&& items[i].lock is Ok
            &&& items[i].lock->Ok_0.pins(items[i].loaded->Ok_0)
            &&& forall|k: int|
                0 <= k < items[i].results@.len() ==> (#[trigger] items[i].results@[k]).passed
        },
{
    let d = items[i];
    gather_empty(items.len() as int, discovered_findings(items));
    assert((discovered_findings(items))(i).len() == 0);
    let errs = discovered_errors(items, d);
    gather_empty(errs.len() as int, lock_finding(d.rel@, errs));
    if errs.len() > 0 {
        assert((lock_finding(d.rel@, errs))(0).len() == 0);
    }
    assert(errs.len() == 0);
    let b = d.loaded->Ok_0;
    assert(canonical(b.errors()).len() == 0);
    is_sorted_set(b.errors());
    b.clean_is_coherent(canonical(b.errors()));
    if b.meta.supersedes is Some {
        let id = b.meta.supersedes->0@;
        assert(succession_errors(items, b).len() == 0);
        let prior = blueprint_from(items, id, 0)->0;
        is_sorted_set(b.evolution_errors(prior));
        b.clean_evolution_retains(prior, canonical(b.evolution_errors(prior)));
        found_has_id(items, id, 0);
    }
    if b.meta.lifecycle == Lifecycle::Locked {
        assert(pinned_errors(d, b).len() == 0);
        let l = d.lock->Ok_0;
        assert(lock_errors(l, b).len() == 0);
        reveal(lock_errors);
        is_sorted_set(b.errors() + l.departures(b));
        empty_canonical(b.errors() + l.departures(b));
        assert(l.departures(b).len() == 0);
        l.pins_or_departs(b);
        gather_empty(d.results@.len() as int, failed_witness(d.results@));
        assert forall|k: int| 0 <= k < d.results@.len() implies (#[trigger] d.results@[k]).passed by {
            assert((failed_witness(d.results@))(k).len() == 0);
        }
    }
}

proof fn found_has_id(items: Seq<Discovered>, id: Seq<char>, i: int)
    requires
        0 <= i,
    ensures
        blueprint_from(items, id, i) is Some ==> blueprint_from(items, id, i)->0.meta.id@ == id,
    decreases items.len() - i,
{
    if i < items.len() {
        found_has_id(items, id, i + 1);
    }
}

proof fn is_sorted_set(raw: Seq<Seq<char>>)
    ensures
        sorted_set(canonical(raw), raw),
{
    crate::order::canonical_facts(raw);
    let c = canonical(raw);
    assert forall|x: Seq<char>| #[trigger] c.contains(x) <==> raw.contains(x) by {
        if raw.contains(x) {
            let i = choose|i: int|
                0 <= i < c.len() && #[trigger] crate::order::Ranked::rank(&c[i])
                    == crate::order::Ranked::rank(&x);
            crate::order::name_rank_injective(false, c[i], x);
        }
    }
}

proof fn empty_canonical(raw: Seq<Seq<char>>)
    requires
        canonical(raw).len() == 0,
    ensures
        raw.len() == 0,
{
    is_sorted_set(raw);
    if raw.len() > 0 {
        assert(raw.contains(raw[0]));
        assert(canonical(raw).contains(raw[0]));
    }
}

// ── what stands against a repository ───────────────────────────────────────────────────

/// What stands against the repository as a whole under a rule.
pub open spec fn whole_finding(rule: Seq<char>, messages: Seq<Seq<char>>) -> spec_fn(int) -> Seq<
    FindingView,
> {
    |i: int| seq![file_finding(rule, Severity::Error, messages[i], "bonsai.lean.json"@, None)]
}

/// What stands against the repository as a whole under a rule, by message.
pub open spec fn whole_findings(rule: Seq<char>, messages: Seq<Seq<char>>) -> Seq<FindingView> {
    gather(messages.len() as int, whole_finding(rule, messages))
}

/// Whether `fs` is what the declared rules have against the tree and the code graph; nothing where
/// none are declared.
pub open spec fn ruled(
    fs: Seq<FindingView>,
    tree: Tree,
    graph: Option<&CodeGraph>,
    rules: Option<Rules>,
) -> bool {
    match rules {
        Some(r) => judged(fs, tree, graph, r),
        None => fs.len() == 0,
    }
}

/// All that stands against a repository: what is wrong with its tree, how it became less lean,
/// and what the rules, the contracts and the blueprints have against it.
pub open spec fn collected(
    invariants: Seq<Seq<char>>,
    regressions: Seq<Seq<char>>,
    ruled: Seq<FindingView>,
    ws: Workspace,
    contracts: Seq<Contract>,
    locks: Seq<FindingView>,
) -> Seq<FindingView> {
    whole_findings("tree-invariant"@, invariants) + whole_findings(
        "leanness-ratchet"@,
        regressions,
    ) + ruled + gather(contracts.len() as int, contract_findings(ws, contracts)) + locks
}

fn list_whole(rule: &str, messages: &Vec<String>) -> (r: Vec<Finding>)
    ensures
        finding_views(r@) == whole_findings(rule@, texts(messages@)),
{
    let ghost all = texts(messages@);
    let mut out: Vec<Finding> = Vec::new();
    let mut i: usize = 0;
    while i < messages.len()
        invariant
            i <= messages.len(),
            all == texts(messages@),
            finding_views(out@) =~= gather(i as int, whole_finding(rule@, all)),
        decreases messages.len() - i,
    {
        assert(all[i as int] == messages@[i as int]@);
        emit(
            &mut out,
            Finding::new(
                rule,
                Severity::Error,
                messages[i].clone(),
                Location::file("bonsai.lean.json".to_owned()),
            ),
        );
        i += 1;
    }
    out
}

/// All that stands against a repository. The ways in which it became less lean, and what stands
/// against its blueprints, are given.
pub fn collect(
    tree: &Tree,
    regressions: &Vec<String>,
    rules: &Option<Rules>,
    graph: Option<&CodeGraph>,
    contracts: &Vec<Contract>,
    ws: &Workspace,
    locks: Vec<Finding>,
) -> (r: Vec<Finding>)
    requires
        rules is Some && rules->0.max_depth > 0 ==> tree.foldable(),
    ensures
        exists|invariants: Seq<Seq<char>>, by_rule: Seq<FindingView>| #[trigger]
            tree.violations(invariants) && #[trigger] ruled(by_rule, *tree, graph, *rules)
                && finding_views(r@) == collected(
                invariants,
                texts(regressions@),
                by_rule,
                *ws,
                contracts@,
                finding_views(locks@),
            ),
{
    let invariants = tree.check();
    let mut out = list_whole("tree-invariant", &invariants);
    emit_all(&mut out, list_whole("leanness-ratchet", regressions));
    let by_rule = match rules {
        Some(r) => crate::rules::evaluate(tree, graph, r),
        None => {
            let none: Vec<Finding> = Vec::new();
            none
        },
    };
    let ghost views = finding_views(by_rule@);
    proof {
        assert(views.len() == by_rule@.len());
        assert(ruled(views, *tree, graph, *rules));
        assert(tree.violations(texts(invariants@)));
    }
    emit_all(&mut out, by_rule);
    emit_all(&mut out, crate::contracts::evaluate(ws, contracts));
    emit_all(&mut out, locks);
    out
}

// ── what is left to judge ──────────────────────────────────────────────────────────────

/// The rules that speak of the repository as a whole. What they have against it is not the matter
/// of one file.
pub open spec fn repo_wide() -> Seq<Seq<char>> {
    seq![
        "tree-invariant"@,
        "leanness-ratchet"@,
        "blueprint-lock"@,
        "abstraction-layers"@,
        "abstraction-depth"@,
    ]
}

/// The rules that speak of the repository as a whole.
pub fn global_rules() -> (r: Vec<String>)
    ensures
        texts(r@) == repo_wide(),
{
    let mut r: Vec<String> = Vec::new();
    put(&mut r, "tree-invariant".to_owned());
    put(&mut r, "leanness-ratchet".to_owned());
    put(&mut r, "blueprint-lock".to_owned());
    put(&mut r, "abstraction-layers".to_owned());
    put(&mut r, "abstraction-depth".to_owned());
    assert(texts(r@) =~= repo_wide());
    r
}

/// The name that a line gives, where it gives one.
pub open spec fn listed_name(ls: Seq<Seq<char>>) -> spec_fn(int) -> Seq<Seq<char>> {
    |i: int|
        if trimmed(ls[i]).len() > 0 {
            seq![trimmed(ls[i])]
        } else {
            seq![]
        }
}

/// The names that an output lists, one on a line; none where there is no output.
pub open spec fn listed_names(output: Option<Seq<char>>) -> Seq<Seq<char>> {
    match output {
        Some(s) => gather(lines_of(s).len() as int, listed_name(lines_of(s))),
        None => seq![],
    }
}

fn add_listed(output: &Option<String>, out: &mut Vec<String>)
    ensures
        texts(final(out)@) == texts(old(out)@) + listed_names(text_opt(*output)),
{
    let ghost base = texts(out@);
    match output {
        Some(s) => {
            let ls = lines(s.as_str());
            let ghost all = texts(ls@);
            let mut i: usize = 0;
            while i < ls.len()
                invariant
                    i <= ls.len(),
                    all == texts(ls@),
                    texts(out@) =~= base + gather(i as int, listed_name(all)),
                decreases ls.len() - i,
            {
                assert(all[i as int] == ls@[i as int]@);
                let t = trim(ls[i].as_str());
                if chars(t.as_str()).len() > 0 {
                    put(out, t);
                }
                i += 1;
            }
            assert(all.len() == ls@.len());
        },
        None => {
            assert(texts(out@) =~= base + listed_names(text_opt(*output)));
        },
    }
}

/// The files that were changed, in order and each once: those that are listed as staged and those
/// that are listed as changed since some time. Nothing where neither is asked for; an output that
/// could not be had lists none.
pub fn changed_files(staged: &Option<String>, since: &Option<String>) -> (r: Option<Vec<String>>)
    ensures
        match r {
            Some(fs) => (staged is Some || since is Some) && sorted_set(
                texts(fs@),
                listed_names(text_opt(*staged)) + listed_names(text_opt(*since)),
            ),
            None => staged is None && since is None,
        },
{
    if staged.is_none() && since.is_none() {
        return None;
    }
    let mut out: Vec<String> = Vec::new();
    add_listed(staged, &mut out);
    add_listed(since, &mut out);
    assert(texts(out@) =~= listed_names(text_opt(*staged)) + listed_names(text_opt(*since)));
    Some(crate::order::sort_dedup(out))
}

/// The exceptions that are declared.
pub open spec fn exceptions(rules: Option<Rules>) -> Seq<Seq<char>> {
    match rules {
        Some(r) => texts(r.allow@),
        None => seq![],
    }
}

/// Whether a finding is judged where only changed files are: it is on one of them, or it speaks of
/// the repository as a whole.
pub open spec fn in_scope(changed: Option<Seq<Seq<char>>>, f: FindingView) -> bool {
    match changed {
        Some(files) => repo_wide().contains(f.rule) || files.contains(f.location.file),
        None => true,
    }
}

/// The finding at a position, where it is judged.
pub open spec fn scoped(fs: Seq<FindingView>, changed: Option<Seq<Seq<char>>>) -> spec_fn(
    int,
) -> Seq<FindingView> {
    |i: int|
        if in_scope(changed, fs[i]) {
            seq![fs[i]]
        } else {
            seq![]
        }
}

/// The findings without those that are let through as declared exceptions and those that are
/// waived at their place.
pub open spec fn unexcused(fs: Seq<FindingView>, rules: Option<Rules>, ws: Workspace) -> Seq<
    FindingView,
> {
    let kept = sift(fs, exceptions(rules), false);
    gather(kept.len() as int, unwaived(ws, kept))
}

/// The findings that are judged.
pub open spec fn judged_findings(
    fs: Seq<FindingView>,
    rules: Option<Rules>,
    ws: Workspace,
    changed: Option<Seq<Seq<char>>>,
) -> Seq<FindingView> {
    let left = unexcused(fs, rules, ws);
    gather(left.len() as int, scoped(left, changed))
}

/// The list of changed files, where there is one.
pub open spec fn changed_texts(changed: Option<Vec<String>>) -> Option<Seq<Seq<char>>> {
    match changed {
        Some(v) => Some(texts(v@)),
        None => None,
    }
}

/// What an admission came to.
pub struct Admission {
    /// What is judged.
    pub report: Report,
    /// What was let through as a declared exception.
    pub exempted: Vec<Finding>,
    /// How much was waived at its place.
    pub waived: usize,
    /// How many files were changed, where only these are judged.
    pub changed: Option<usize>,
}

fn keep_scoped(findings: Vec<Finding>, changed: &Option<Vec<String>>) -> (r: Vec<Finding>)
    ensures
        finding_views(r@) == gather(
            findings@.len() as int,
            scoped(finding_views(findings@), changed_texts(*changed)),
        ),
{
    let ghost fs = finding_views(findings@);
    let ghost scope = changed_texts(*changed);
    let global = global_rules();
    let mut out: Vec<Finding> = Vec::new();
    let mut i: usize = 0;
    while i < findings.len()
        invariant
            i <= findings.len(),
            fs == finding_views(findings@),
            scope == changed_texts(*changed),
            texts(global@) == repo_wide(),
            finding_views(out@) =~= gather(i as int, scoped(fs, scope)),
        decreases findings.len() - i,
    {
        assert(fs[i as int] == findings@[i as int]@);
        let f = &findings[i];
        let keep = match changed {
            Some(files) => holds(&global, f.rule.as_str()) || holds(
                files,
                f.location.file.as_str(),
            ),
            None => true,
        };
        if keep {
            emit(&mut out, f.copy());
        }
        i += 1;
    }
    out
}

/// Judges findings: declared exceptions are let through, what is waived at its place is left out,
/// and where only changed files are judged, what stands against others is left out too, unless it
/// speaks of the repository as a whole.
pub fn judge(
    findings: Vec<Finding>,
    rules: &Option<Rules>,
    ws: &Workspace,
    changed: &Option<Vec<String>>,
) -> (r: Admission)
    ensures
        finding_views(r.report.findings@) == judged_findings(
            finding_views(findings@),
            *rules,
            *ws,
            changed_texts(*changed),
        ),
        finding_views(r.exempted@) == sift(finding_views(findings@), exceptions(*rules), true),
        r.waived == sift(finding_views(findings@), exceptions(*rules), false).len() - unexcused(
            finding_views(findings@),
            *rules,
            *ws,
        ).len(),
        match *changed {
            Some(files) => r.changed == Some(files@.len() as usize),
            None => r.changed is None,
        },
        r.report.tool_version@ == crate::finding::VERSION@,
{
    let none: Vec<String> = Vec::new();
    let allow = match rules {
        Some(x) => &x.allow,
        None => &none,
    };
    assert(texts(allow@) =~= exceptions(*rules));
    let (kept, exempted) = apply_allow(findings, allow);
    assert(finding_views(kept@).len() == kept@.len());
    let (left, waived) = apply_inline_suppression(ws, kept);
    assert(finding_views(left@).len() == left@.len());
    let scoped_findings = keep_scoped(left, changed);
    let count = match changed {
        Some(files) => Some(files.len()),
        None => None,
    };
    Admission { report: Report::new(scoped_findings), exempted, waived, changed: count }
}

proof fn scoped_holds(fs: Seq<FindingView>, changed: Option<Seq<Seq<char>>>, f: FindingView)
    ensures
        gather(fs.len() as int, scoped(fs, changed)).contains(f) <==> fs.contains(f) && in_scope(
            changed,
            f,
        ),
{
    gather_contains(fs.len() as int, scoped(fs, changed), f);
    if gather(fs.len() as int, scoped(fs, changed)).contains(f) {
        let i = choose|i: int| 0 <= i < fs.len() && (#[trigger] (scoped(fs, changed))(i)).contains(f);
        let one = (scoped(fs, changed))(i);
        let k = choose|k: int| 0 <= k < one.len() && one[k] == f;
        assert(fs[i] == f);
    }
    if fs.contains(f) && in_scope(changed, f) {
        let i = choose|i: int| 0 <= i < fs.len() && fs[i] == f;
        assert((scoped(fs, changed))(i)[0] == f);
        assert((scoped(fs, changed))(i).contains(f));
    }
}

proof fn unwaived_holds(ws: Workspace, fs: Seq<FindingView>, f: FindingView)
    ensures
        gather(fs.len() as int, unwaived(ws, fs)).contains(f) <==> fs.contains(f)
            && !crate::rules::waived(ws, f),
{
    gather_contains(fs.len() as int, unwaived(ws, fs), f);
    if gather(fs.len() as int, unwaived(ws, fs)).contains(f) {
        let i = choose|i: int| 0 <= i < fs.len() && (#[trigger] (unwaived(ws, fs))(i)).contains(f);
        let one = (unwaived(ws, fs))(i);
        let k = choose|k: int| 0 <= k < one.len() && one[k] == f;
        assert(fs[i] == f);
    }
    if fs.contains(f) && !crate::rules::waived(ws, f) {
        let i = choose|i: int| 0 <= i < fs.len() && fs[i] == f;
        assert((unwaived(ws, fs))(i)[0] == f);
        assert((unwaived(ws, fs))(i).contains(f));
    }
}

/// What is judged is exactly what stands against the repository, is neither a declared exception
/// nor waived at its place, and is in scope. So narrowing the scope to changed files never drops
/// what speaks of the repository as a whole.
pub proof fn judged_exactly(
    fs: Seq<FindingView>,
    rules: Option<Rules>,
    ws: Workspace,
    changed: Option<Seq<Seq<char>>>,
    f: FindingView,
)
    ensures
        judged_findings(fs, rules, ws, changed).contains(f) <==> {
            &&& fs.contains(f)
            &&& !crate::rules::allowed(exceptions(rules), f)
            &&& !crate::rules::waived(ws, f)
            &&& in_scope(changed, f)
        },
        repo_wide().contains(f.rule) ==> in_scope(changed, f),
{
    let kept = sift(fs, exceptions(rules), false);
    crate::rules::sifting_partitions(fs, exceptions(rules));
    unwaived_holds(ws, kept, f);
    scoped_holds(unexcused(fs, rules, ws), changed, f);
    if kept.contains(f) {
        assert(fs.contains(f));
    }
    if fs.contains(f) && !crate::rules::allowed(exceptions(rules), f) {
        assert(kept.contains(f) || sift(fs, exceptions(rules), true).contains(f));
    }
}

proof fn unwaived_len(ws: Workspace, fs: Seq<FindingView>, n: int)
    requires
        0 <= n,
    ensures
        gather(n, unwaived(ws, fs)).len() <= n,
    decreases n,
{
    if n > 0 {
        unwaived_len(ws, fs, n - 1);
    }
}

/// Nothing is dropped in silence: every finding is let through as a declared exception, waived at
/// its place, or left, and the three numbers add up.
pub proof fn every_finding_is_accounted_for(
    fs: Seq<FindingView>,
    rules: Option<Rules>,
    ws: Workspace,
)
    ensures
        unexcused(fs, rules, ws).len() <= sift(fs, exceptions(rules), false).len(),
        sift(fs, exceptions(rules), true).len() + (sift(fs, exceptions(rules), false).len()
            - unexcused(fs, rules, ws).len()) + unexcused(fs, rules, ws).len() == fs.len(),
{
    crate::rules::sifting_partitions(fs, exceptions(rules));
    let kept = sift(fs, exceptions(rules), false);
    unwaived_len(ws, kept, kept.len() as int);
}

// ── what is said about it ─────────────────────────────────────────────────────────────────

/// The line for what was let through.
pub open spec fn exempted_line(fs: Seq<FindingView>) -> spec_fn(int) -> Seq<Seq<char>> {
    |i: int| seq!["      ["@ + fs[i].rule + "] "@ + fs[i].location.file]
}

/// The line for what is judged.
pub open spec fn judged_line(fs: Seq<FindingView>) -> spec_fn(int) -> Seq<Seq<char>> {
    |i: int|
        seq![
            "  "@ + (if fs[i].severity == Severity::Error {
                "✗"@
            } else {
                "▲"@
            }) + " ["@ + fs[i].rule + "] "@ + fs[i].location.file + " — "@ + fs[i].message,
        ]
}

/// The lines on what was let through, if anything was: how much, and the first eight of it.
pub open spec fn exempted_lines(fs: Seq<FindingView>) -> Seq<Seq<char>> {
    if fs.len() == 0 {
        seq![]
    } else {
        seq!["  ⓘ "@ + dec(fs.len()) + " finding(s) exempted by the allow-list (migration valve):"@]
            + gather(
            if fs.len() < 8 {
                fs.len() as int
            } else {
                8
            },
            exempted_line(fs),
        )
    }
}

/// The line on what was waived, if anything was.
pub open spec fn waived_lines(n: nat) -> Seq<Seq<char>> {
    if n == 0 {
        seq![]
    } else {
        seq!["  ⓘ "@ + dec(n) + " finding(s) waived inline (// bonsai:allow)"@]
    }
}

/// The line on the scope, where it was narrowed.
pub open spec fn scope_lines(changed: Option<usize>) -> Seq<Seq<char>> {
    match changed {
        Some(n) => seq![
            "  ⓘ diff-scoped to "@ + dec(n as nat)
                + " changed file(s) (repo-wide gates still apply)"@,
        ],
        None => seq![],
    }
}

/// The last line, where the change is admitted.
pub open spec fn passed_line(nodes: nat, warnings: nat) -> Seq<char> {
    "bonsai check: OK — "@ + dec(nodes) + " nodes, invariants + ratchet + conformance hold"@ + (
    if warnings > 0 {
        " ("@ + dec(warnings) + " warning(s), non-blocking)"@
    } else {
        ""@
    })
}

impl Admission {
    /// How many findings of a severity are judged.
    pub open spec fn number(self, s: Severity) -> nat {
        tally(self.report.findings@, s, self.report.findings@.len() as int)
    }

    /// What is said, but for the error of a refusal.
    pub open spec fn said(self, nodes: nat) -> Seq<Seq<char>> {
        let fs = finding_views(self.report.findings@);
        exempted_lines(finding_views(self.exempted@)) + waived_lines(self.waived as nat)
            + scope_lines(self.changed) + gather(fs.len() as int, judged_line(fs)) + (
        if self.number(Severity::Error) == 0 {
            seq![passed_line(nodes, self.number(Severity::Warning))]
        } else {
            seq![]
        })
    }

    /// Why the change is refused, where it is: only errors refuse it.
    pub fn failure(&self) -> (r: Option<String>)
        ensures
            r is Some <==> self.number(Severity::Error) > 0,
            r is Some ==> r->0@ == "bonsai check: "@ + dec(self.number(Severity::Error))
                + " violation(s)"@,
    {
        let (errors, _warnings, _infos) = self.report.counts();
        if errors == 0 {
            None
        } else {
            Some(cat3("bonsai check: ", decimal_usize(errors).as_str(), " violation(s)"))
        }
    }

    /// What is said, line by line, on a tree with that many nodes.
    pub fn lines(&self, nodes: usize) -> (r: Vec<String>)
        ensures
            texts(r@) == self.said(nodes as nat),
    {
        let mut out = list_exempted(&self.exempted);
        let ghost one = texts(out@);
        if self.waived > 0 {
            put(
                &mut out,
                cat3(
                    "  ⓘ ",
                    decimal_usize(self.waived).as_str(),
                    " finding(s) waived inline (// bonsai:allow)",
                ),
            );
        }
        assert(texts(out@) =~= one + waived_lines(self.waived as nat));
        let ghost two = texts(out@);
        if let Some(n) = self.changed {
            put(
                &mut out,
                cat3(
                    "  ⓘ diff-scoped to ",
                    decimal_usize(n).as_str(),
                    " changed file(s) (repo-wide gates still apply)",
                ),
            );
        }
        assert(texts(out@) =~= two + scope_lines(self.changed));
        put_all(&mut out, &list_judged(&self.report.findings));
        let ghost three = texts(out@);
        let (errors, warnings, _infos) = self.report.counts();
        if errors == 0 {
            let note = if warnings > 0 {
                cat3(" (", decimal_usize(warnings).as_str(), " warning(s), non-blocking)")
            } else {
                "".to_owned()
            };
            put(
                &mut out,
                cat4(
                    "bonsai check: OK — ",
                    decimal_usize(nodes).as_str(),
                    " nodes, invariants + ratchet + conformance hold",
                    note.as_str(),
                ),
            );
        }
        assert(texts(out@) =~= self.said(nodes as nat));
        out
    }
}

fn list_exempted(findings: &Vec<Finding>) -> (r: Vec<String>)
    ensures
        texts(r@) == exempted_lines(finding_views(findings@)),
{
    let ghost fs = finding_views(findings@);
    let total = findings.len();
    let mut out: Vec<String> = Vec::new();
    if total == 0 {
        assert(texts(out@) =~= exempted_lines(fs));
        return out;
    }
    put(
        &mut out,
        cat3(
            "  ⓘ ",
            decimal_usize(total).as_str(),
            " finding(s) exempted by the allow-list (migration valve):",
        ),
    );
    let ghost head = texts(out@);
    let shown: usize = if total < 8 {
        total
    } else {
        8
    };
    let mut i: usize = 0;
    while i < shown
        invariant
            i <= shown <= total == findings@.len(),
            fs == finding_views(findings@),
            texts(out@) =~= head + gather(i as int, exempted_line(fs)),
        decreases shown - i,
    {
        assert(fs[i as int] == findings@[i as int]@);
        let f = &findings[i];
        put(
            &mut out,
            cat4("      [", f.rule.as_str(), "] ", f.location.file.as_str()),
        );
        i += 1;
    }
    assert(texts(out@) =~= exempted_lines(fs));
    out
}

fn list_judged(findings: &Vec<Finding>) -> (r: Vec<String>)
    ensures
        texts(r@) == gather(findings@.len() as int, judged_line(finding_views(findings@))),
{
    let ghost fs = finding_views(findings@);
    let mut out: Vec<String> = Vec::new();
    let mut i: usize = 0;
    while i < findings.len()
        invariant
            i <= findings.len(),
            fs == finding_views(findings@),
            texts(out@) =~= gather(i as int, judged_line(fs)),
        decreases findings.len() - i,
    {
        assert(fs[i as int] == findings@[i as int]@);
        let f = &findings[i];
        let glyph = if f.severity == Severity::Error {
            "✗"
        } else {
            "▲"
        };
        let mut t = cat7(
            "  ",
            glyph,
            " [",
            f.rule.as_str(),
            "] ",
            f.location.file.as_str(),
            " — ",
        );
        t.append(f.message.as_str());
        put(&mut out, t);
        i += 1;
    }
    out
}

} // verus!
