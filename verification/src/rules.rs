//! How new code may enter a repository: no directory grows without bound, nothing depends
//! upwards, files stand where they belong. And what is let through all the same: by the list in
//! the configuration, or by a comment in the source.
use vstd::prelude::*;

use crate::config::Rules;
use crate::finding::{
    emit, file_finding, finding_views, Finding, FindingView, Location, LocationView, Severity,
};
use crate::links::groups;
use crate::model::{Kind, Node};
use crate::moves::Workspace;
use crate::order::{value_of, Names, Table};
use crate::paths::plain;
use crate::scip::{lists_cycles, lists_misplaced, CodeGraph, Misplacement};
use crate::text::{
    ahead, behind, cat2, cat4, cat5, cat7, chars, cut, dec, decimal_usize, ends, ends_with, gather,
    gather_empty, join, joined, lines, lines_of, parts, same, split, split_once, starts,
    starts_with, strip_prefix, strip_suffix, text_opt, texts, trim, trimmed,
};
use crate::tree::{Measure, Tree};

verus! {

// ── bounded growth ─────────────────────────────────────────────────────────────────────

/// How many of the first `k` children of a node are atoms.
pub open spec fn atoms_upto(t: Tree, n: Node, k: int) -> nat
    decreases k,
{
    if k <= 0 {
        0
    } else {
        atoms_upto(t, n, k - 1) + (match value_of(t.nodes@, n.children@[k - 1]@) {
            Some(c) => if c.kind == Kind::Atom {
                1nat
            } else {
                0nat
            },
            None => 0nat,
        })
    }
}

/// What stands against a directory with too many files.
pub open spec fn growth_finding(t: Tree, most: usize) -> spec_fn(int) -> Seq<FindingView> {
    |i: int|
        {
            let n = t.nodes@[i].1;
            let direct = atoms_upto(t, n, n.children@.len() as int);
            if n.kind == Kind::Composite && direct > most {
                seq![
                    file_finding(
                        "conformance-size"@,
                        Severity::Error,
                        dec(direct) + " files directly in this directory (ceiling "@ + dec(
                            most as nat,
                        ) + ")"@,
                        n.id@,
                        Some("split into sub-modules, or relocate files to their coupled home"@),
                    ),
                ]
            } else {
                seq![]
            }
        }
}

/// What stands against the directories of a tree.
pub open spec fn growth_findings(t: Tree, rules: Rules) -> Seq<FindingView> {
    if rules.max_files_per_dir == 0 {
        seq![]
    } else {
        gather(t.nodes@.len() as int, growth_finding(t, rules.max_files_per_dir))
    }
}

// ── bounded abstraction ────────────────────────────────────────────────────────────────

/// What stands against too many layers, and against nesting too deep.
pub open spec fn bound_findings(t: Tree, rules: Rules, depth: int) -> Seq<FindingView> {
    (if rules.max_layers > 0 && rules.layers@.len() > rules.max_layers {
        seq![
            file_finding(
                "abstraction-layers"@,
                Severity::Error,
                dec(rules.layers@.len()) + " architecture layers declared (ceiling "@ + dec(
                    rules.max_layers as nat,
                ) + ") — collapse levels; more layers is not more structure"@,
                "bonsai.toml"@,
                Some("merge adjacent layers, or raise max_layers deliberately"@),
            ),
        ]
    } else {
        seq![]
    }) + (if rules.max_depth > 0 && depth > rules.max_depth {
        seq![
            file_finding(
                "abstraction-depth"@,
                Severity::Error,
                "containment nested "@ + dec(depth as nat) + " deep (ceiling "@ + dec(
                    rules.max_depth as nat,
                ) + ") — flatten the tower of directories"@,
                t.root@,
                Some("hoist over-nested modules up, or raise max_depth deliberately"@),
            ),
        ]
    } else {
        seq![]
    })
}

// ── layering ───────────────────────────────────────────────────────────────────────────

/// The last of the first `n` layers with a name.
pub open spec fn layer_index(layers: Seq<String>, name: Seq<char>, n: int) -> Option<int>
    decreases n,
{
    if n <= 0 {
        None
    } else if layers[n - 1]@ == name {
        Some(n - 1)
    } else {
        layer_index(layers, name, n - 1)
    }
}

/// The layer that a node names, where it names one of the layers.
pub open spec fn own_layer(t: Tree, layers: Seq<String>, id: Seq<char>) -> Option<int> {
    match value_of(t.nodes@, id) {
        Some(n) => match value_of(n.facets@, "layer"@) {
            Some(l) => layer_index(layers, l@, layers.len() as int),
            None => None,
        },
        None => None,
    }
}

/// The layer that the node `k` steps up from `id` names.
pub open spec fn layer_above(t: Tree, layers: Seq<String>, id: Seq<char>, k: nat) -> Option<int> {
    match t.up(id, k) {
        Some(x) => own_layer(t, layers, x),
        None => None,
    }
}

/// Whether the first node on the way up from `id` that names a layer is `k` steps up.
pub open spec fn layered_at(t: Tree, layers: Seq<String>, id: Seq<char>, k: nat) -> bool {
    layer_above(t, layers, id, k) is Some && forall|j: nat|
        j < k ==> (#[trigger] layer_above(t, layers, id, j)) is None
}

/// The layer of `id`: that of the first node on the way up from it that names one.
pub open spec fn nearest_layer(t: Tree, layers: Seq<String>, id: Seq<char>) -> Option<int> {
    if exists|k: nat| #[trigger] layered_at(t, layers, id, k) {
        layer_above(t, layers, id, choose|k: nat| #[trigger] layered_at(t, layers, id, k))
    } else {
        None
    }
}

/// Whether some atom has an id.
pub open spec fn atom_named(t: Tree, id: Seq<char>, n: int) -> bool {
    exists|i: int|
        0 <= i < n && (#[trigger] t.nodes@[i]).1.kind == Kind::Atom && t.nodes@[i].1.id@ == id
}

/// The layer of a file: nothing for what is not a file of the tree, or has no layer.
pub open spec fn file_layer(t: Tree, layers: Seq<String>, file: Seq<char>) -> Option<int> {
    if atom_named(t, file, t.nodes@.len() as int) {
        nearest_layer(t, layers, file)
    } else {
        None
    }
}

/// What stands against a dependency of `from`, where it leads upwards.
pub open spec fn upward_finding(
    t: Tree,
    layers: Seq<String>,
    from: Seq<char>,
    set: Seq<(Seq<char>, ())>,
) -> spec_fn(int) -> Seq<FindingView> {
    |i: int|
        {
            let to = set[i].0;
            match (file_layer(t, layers, from), file_layer(t, layers, to)) {
                (Some(f), Some(u)) => if u > f {
                    seq![
                        (FindingView {
                            rule: "conformance-layering"@,
                            severity: Severity::Error,
                            message: from + " (layer '"@ + layers[f]@ + "') depends UPWARD on "@
                                + to + " (layer '"@ + layers[u]@ + "')"@,
                            location: LocationView { file: from, line: None },
                            related: seq![(LocationView { file: to, line: None })],
                            fix: Some(
                                "invert the dependency, or move the shared code down a layer"@,
                            ),
                        }),
                    ]
                } else {
                    seq![]
                },
                _ => seq![],
            }
        }
}

/// What stands against the dependencies of a file.
pub open spec fn upward_findings(t: Tree, g: CodeGraph, layers: Seq<String>) -> spec_fn(int) -> Seq<
    FindingView,
> {
    |i: int|
        {
            let set = g.file_deps@[i].1@;
            gather(set.len() as int, upward_finding(t, layers, g.file_deps@[i].0, set))
        }
}

/// What stands against the dependencies between layers.
pub open spec fn layer_findings(t: Tree, g: CodeGraph, rules: Rules) -> Seq<FindingView> {
    if rules.layers@.len() == 0 {
        seq![]
    } else {
        gather(g.file_deps@.len() as int, upward_findings(t, g, rules.layers@))
    }
}

// ── placement and cycles ───────────────────────────────────────────────────────────────

/// What stands against a misplaced file.
pub open spec fn placement_finding(ms: Seq<Misplacement>) -> spec_fn(int) -> Seq<FindingView> {
    |i: int|
        {
            let m = ms[i];
            seq![
                file_finding(
                    "conformance-placement"@,
                    Severity::Error,
                    "used only from "@ + m.suggested_dir@ + "/ — belongs there, not in "@ + (
                    if m.current_dir@.len() == 0 {
                        "the repo root"@
                    } else {
                        m.current_dir@
                    }) + "/"@,
                    m.file@,
                    Some(
                        "bonsai apply "@ + m.file@ + " "@ + m.suggested_dir@ + "/… --write"@,
                    ),
                ),
            ]
        }
}

/// What stands against files that depend on each other in turn.
pub open spec fn cycle_finding(cs: Seq<Seq<Seq<char>>>) -> spec_fn(int) -> Seq<FindingView> {
    |i: int|
        seq![
            file_finding(
                "structure-cycle"@,
                Severity::Error,
                "dependency cycle among "@ + dec(cs[i].len()) + " modules: "@ + joined(
                    cs[i],
                    " → "@,
                ),
                if cs[i].len() > 0 {
                    cs[i][0]
                } else {
                    Seq::empty()
                },
                Some(
                    "break the cycle: extract the shared piece to a lower layer, or invert one edge"@,
                ),
            ),
        ]
}

/// What stands against the files of a graph that are misplaced.
pub open spec fn placement_findings(rules: Rules, ms: Seq<Misplacement>) -> Seq<FindingView> {
    if rules.enforce_placement {
        gather(ms.len() as int, placement_finding(ms))
    } else {
        seq![]
    }
}

/// What stands against the files of a graph that depend on each other in turn.
pub open spec fn cycle_findings(rules: Rules, cs: Seq<Seq<Seq<char>>>) -> Seq<FindingView> {
    if rules.forbid_cycles {
        gather(cs.len() as int, cycle_finding(cs))
    } else {
        seq![]
    }
}

/// What stands against the files of a graph.
pub open spec fn graph_findings(
    t: Tree,
    g: CodeGraph,
    rules: Rules,
    ms: Seq<Misplacement>,
    cs: Seq<Seq<Seq<char>>>,
) -> Seq<FindingView> {
    layer_findings(t, g, rules) + placement_findings(rules, ms) + cycle_findings(rules, cs)
}

/// Whether findings are what stands against a tree, and against a graph where there is one.
pub open spec fn judged(
    fs: Seq<FindingView>,
    t: Tree,
    graph: Option<&CodeGraph>,
    rules: Rules,
) -> bool {
    exists|depth: int, ms: Seq<Misplacement>, cs: Seq<Seq<Seq<char>>>|
        #![trigger bound_findings(t, rules, depth), placement_findings(rules, ms), cycle_findings(rules, cs)]
        {
            &&& rules.max_depth > 0 ==> t.root_measure(Measure::Depth, depth)
            &&& match graph {
                Some(g) => lists_misplaced(g.file_deps@, ms) && lists_cycles(g.file_deps@, cs)
                    && fs == growth_findings(t, rules) + bound_findings(t, rules, depth)
                    + graph_findings(t, *g, rules, ms, cs),
                None => fs == growth_findings(t, rules) + bound_findings(t, rules, depth),
            }
        }
}

/// Where the rules have nothing against a repository, they are kept: no dependency leads up to a
/// less stable layer, no directory holds too many files, the declared layers and the nesting are
/// within their bounds, no file belongs elsewhere and no files depend on each other in turn, each
/// as far as it is asked for.
pub proof fn clean_rules_hold(fs: Seq<FindingView>, t: Tree, g: CodeGraph, rules: Rules)
    requires
        judged(fs, t, Some(&g), rules),
        fs.len() == 0,
    ensures
        rules.layers@.len() > 0 ==> forall|i: int, k: int|
            0 <= i < g.file_deps@.len() && 0 <= k < g.file_deps@[i].1@.len() ==> keeps_layers(
                t,
                rules.layers@,
                g.file_deps@[i].0,
                #[trigger] g.file_deps@[i].1@[k].0,
            ),
        rules.max_files_per_dir > 0 ==> forall|i: int|
            0 <= i < t.nodes@.len() && (#[trigger] t.nodes@[i]).1.kind == Kind::Composite
                ==> atoms_upto(t, t.nodes@[i].1, t.nodes@[i].1.children@.len() as int)
                <= rules.max_files_per_dir,
        rules.max_layers > 0 ==> rules.layers@.len() <= rules.max_layers,
        rules.max_depth > 0 ==> exists|d: int| #[trigger]
            t.root_measure(Measure::Depth, d) && d <= rules.max_depth,
        rules.enforce_placement ==> forall|f: Seq<char>, d: Seq<char>| !#[trigger]
            crate::scip::belongs_in(g.file_deps@, f, d),
        rules.forbid_cycles ==> lists_cycles(g.file_deps@, Seq::empty()),
{
    let (depth, ms, cs) = choose|depth: int, ms: Seq<Misplacement>, cs: Seq<Seq<Seq<char>>>|
        #![trigger bound_findings(t, rules, depth), placement_findings(rules, ms), cycle_findings(rules, cs)]
        {
            &&& rules.max_depth > 0 ==> t.root_measure(Measure::Depth, depth)
            &&& lists_misplaced(g.file_deps@, ms)
            &&& lists_cycles(g.file_deps@, cs)
            &&& fs == growth_findings(t, rules) + bound_findings(t, rules, depth) + graph_findings(
                t,
                g,
                rules,
                ms,
                cs,
            )
        };
    assert(growth_findings(t, rules).len() == 0);
    assert(bound_findings(t, rules, depth).len() == 0);
    assert(layer_findings(t, g, rules).len() == 0);
    assert(placement_findings(rules, ms).len() == 0);
    assert(cycle_findings(rules, cs).len() == 0);
    if rules.layers@.len() > 0 {
        let n = g.file_deps@.len() as int;
        gather_empty(n, upward_findings(t, g, rules.layers@));
        assert forall|i: int, k: int|
            0 <= i < n && 0 <= k < g.file_deps@[i].1@.len() implies keeps_layers(
            t,
            rules.layers@,
            g.file_deps@[i].0,
            #[trigger] g.file_deps@[i].1@[k].0,
        ) by {
            let set = g.file_deps@[i].1@;
            let f = upward_finding(t, rules.layers@, g.file_deps@[i].0, set);
            assert((upward_findings(t, g, rules.layers@))(i).len() == 0);
            gather_empty(set.len() as int, f);
            assert(f(k).len() == 0);
        }
    }
    if rules.max_files_per_dir > 0 {
        let f = growth_finding(t, rules.max_files_per_dir);
        gather_empty(t.nodes@.len() as int, f);
        assert forall|i: int|
            0 <= i < t.nodes@.len() && (#[trigger] t.nodes@[i]).1.kind == Kind::Composite implies atoms_upto(
            t,
            t.nodes@[i].1,
            t.nodes@[i].1.children@.len() as int,
        ) <= rules.max_files_per_dir by {
            assert(f(i).len() == 0);
        }
    }
    if rules.enforce_placement {
        if ms.len() > 0 {
            gather_empty(ms.len() as int, placement_finding(ms));
            assert((placement_finding(ms))(0).len() == 0);
        }
        assert forall|f: Seq<char>, d: Seq<char>| !#[trigger] crate::scip::belongs_in(
            g.file_deps@,
            f,
            d,
        ) by {}
    }
    if rules.forbid_cycles {
        if cs.len() > 0 {
            gather_empty(cs.len() as int, cycle_finding(cs));
            assert((cycle_finding(cs))(0).len() == 0);
        }
        assert(cs =~= Seq::empty());
    }
}

/// Whether a dependency keeps to the layers: it does not lead to one that comes later.
pub open spec fn keeps_layers(
    t: Tree,
    layers: Seq<String>,
    from: Seq<char>,
    to: Seq<char>,
) -> bool {
    match (file_layer(t, layers, from), file_layer(t, layers, to)) {
        (Some(f), Some(u)) => u <= f,
        _ => true,
    }
}

// ── evaluation ─────────────────────────────────────────────────────────────────────────

fn count_atoms(t: &Tree, n: &Node) -> (r: usize)
    ensures
        r == atoms_upto(*t, *n, n.children@.len() as int),
{
    let mut direct: usize = 0;
    let mut i: usize = 0;
    while i < n.children.len()
        invariant
            i <= n.children.len(),
            direct == atoms_upto(*t, *n, i as int),
            direct <= i,
        decreases n.children.len() - i,
    {
        match t.nodes.get(n.children[i].as_str()) {
            Some(c) => {
                if c.kind == Kind::Atom {
                    direct += 1;
                }
            },
            None => {},
        }
        i += 1;
    }
    direct
}

fn bounded_growth(t: &Tree, rules: &Rules, out: &mut Vec<Finding>)
    ensures
        finding_views(final(out)@) == finding_views(old(out)@) + growth_findings(*t, *rules),
{
    let ghost before = finding_views(out@);
    if rules.max_files_per_dir == 0 {
        assert(finding_views(out@) =~= before + growth_findings(*t, *rules));
        return ;
    }
    let most = rules.max_files_per_dir;
    let total = t.nodes.len();
    let mut i: usize = 0;
    while i < total
        invariant
            i <= total == t.nodes@.len(),
            finding_views(out@) =~= before + gather(i as int, growth_finding(*t, most)),
        decreases total - i,
    {
        let n = t.nodes.value(i);
        let direct = count_atoms(t, n);
        if n.kind == Kind::Composite && direct > most {
            let f = Finding::new(
                "conformance-size",
                Severity::Error,
                cat4(
                    decimal_usize(direct).as_str(),
                    " files directly in this directory (ceiling ",
                    decimal_usize(most).as_str(),
                    ")",
                ),
                Location::file(n.id.clone()),
            );
            emit(
                out,
                f.with_fix(
                    "split into sub-modules, or relocate files to their coupled home".to_owned(),
                ),
            );
        }
        i += 1;
    }
}

fn abstraction_bounds(t: &Tree, rules: &Rules, out: &mut Vec<Finding>) -> (depth: Ghost<int>)
    requires
        rules.max_depth > 0 ==> t.foldable(),
    ensures
        rules.max_depth > 0 ==> t.root_measure(Measure::Depth, depth@),
        finding_views(final(out)@) == finding_views(old(out)@) + bound_findings(
            *t,
            *rules,
            depth@,
        ),
{
    let ghost before = finding_views(out@);
    if rules.max_layers > 0 && rules.layers.len() > rules.max_layers {
        let f = Finding::new(
            "abstraction-layers",
            Severity::Error,
            cat4(
                decimal_usize(rules.layers.len()).as_str(),
                " architecture layers declared (ceiling ",
                decimal_usize(rules.max_layers).as_str(),
                ") — collapse levels; more layers is not more structure",
            ),
            Location::file("bonsai.toml".to_owned()),
        );
        emit(
            out,
            f.with_fix("merge adjacent layers, or raise max_layers deliberately".to_owned()),
        );
    }
    let mut depth: usize = 0;
    if rules.max_depth > 0 {
        depth = t.measure_root(Measure::Depth);
        if depth > rules.max_depth {
            let f = Finding::new(
                "abstraction-depth",
                Severity::Error,
                cat5(
                    "containment nested ",
                    decimal_usize(depth).as_str(),
                    " deep (ceiling ",
                    decimal_usize(rules.max_depth).as_str(),
                    ") — flatten the tower of directories",
                ),
                Location::file(t.root.clone()),
            );
            emit(
                out,
                f.with_fix(
                    "hoist over-nested modules up, or raise max_depth deliberately".to_owned(),
                ),
            );
        }
    }
    assert(finding_views(out@) =~= before + bound_findings(*t, *rules, depth as int));
    Ghost(depth as int)
}

fn find_layer(layers: &Vec<String>, name: &str) -> (r: Option<usize>)
    ensures
        crate::text::place(r) == layer_index(layers@, name@, layers@.len() as int),
        r is Some ==> r->0 < layers.len(),
{
    let mut n: usize = layers.len();
    while n > 0
        invariant
            n <= layers.len(),
            layer_index(layers@, name@, layers@.len() as int) == layer_index(
                layers@,
                name@,
                n as int,
            ),
        decreases n,
    {
        if same(layers[n - 1].as_str(), name) {
            return Some(n - 1);
        }
        n -= 1;
    }
    None
}

fn find_own_layer(t: &Tree, layers: &Vec<String>, id: &str) -> (r: Option<usize>)
    ensures
        crate::text::place(r) == own_layer(*t, layers@, id@),
        r is Some ==> r->0 < layers.len(),
{
    match t.nodes.get(id) {
        Some(n) => match n.facets.get("layer") {
            Some(l) => find_layer(layers, l.as_str()),
            None => None,
        },
        None => None,
    }
}

fn find_nearest_layer(t: &Tree, layers: &Vec<String>, id: &str) -> (r: Option<usize>)
    ensures
        crate::text::place(r) == nearest_layer(*t, layers@, id@),
        r is Some ==> r->0 < layers.len(),
{
    let (way, _ends) = t.way_up(id);
    let ghost ids = texts(way@);
    let mut i: usize = 0;
    while i < way.len()
        invariant
            i <= way.len(),
            ids == texts(way@),
            forall|m: int| 0 <= m < way@.len() ==> t.up(id@, m as nat) == Some(#[trigger] ids[m]),
            forall|j: nat| j < i ==> (#[trigger] layer_above(*t, layers@, id@, j)) is None,
        decreases way.len() - i,
    {
        assert(ids[i as int] == way@[i as int]@);
        let found = find_own_layer(t, layers, way[i].as_str());
        assert(layer_above(*t, layers@, id@, i as nat) == crate::text::place(found));
        if found.is_some() {
            proof {
                assert(layered_at(*t, layers@, id@, i as nat));
                let k = choose|k: nat| #[trigger] layered_at(*t, layers@, id@, k);
                if k < i {
                    assert(layer_above(*t, layers@, id@, k) is None);
                } else if i < k {
                    assert(layer_above(*t, layers@, id@, i as nat) is None);
                }
            }
            return found;
        }
        i += 1;
    }
    proof {
        if exists|k: nat| #[trigger] layered_at(*t, layers@, id@, k) {
            let k = choose|k: nat| #[trigger] layered_at(*t, layers@, id@, k);
            assert(t.up(id@, k) is Some);
            let m = choose|m: int|
                0 <= m <= k && m < way@.len() && t.up(id@, k) == Some(#[trigger] texts(way@)[m]);
            assert(t.up(id@, m as nat) == Some(ids[m]));
            assert(layer_above(*t, layers@, id@, m as nat) is None);
        }
    }
    None
}

/// The layer of each file.
fn build_layer_map(t: &Tree, layers: &Vec<String>) -> (r: Table<usize, false>)
    ensures
        forall|f: Seq<char>|
            crate::text::place(#[trigger] value_of(r@, f)) == file_layer(*t, layers@, f),
        forall|f: Seq<char>| (#[trigger] value_of(r@, f)) is Some ==> value_of(r@, f)->0 < layers.len(),
{
    let mut map: Table<usize, false> = Table::new();
    let total = t.nodes.len();
    let mut i: usize = 0;
    while i < total
        invariant
            i <= total == t.nodes@.len(),
            forall|f: Seq<char>|
                crate::text::place(#[trigger] value_of(map@, f)) == (if atom_named(
                    *t,
                    f,
                    i as int,
                ) {
                    nearest_layer(*t, layers@, f)
                } else {
                    None
                }),
            forall|f: Seq<char>|
                (#[trigger] value_of(map@, f)) is Some ==> value_of(map@, f)->0 < layers.len(),
        decreases total - i,
    {
        let n = t.nodes.value(i);
        let ghost before = map@;
        let ghost id = n.id@;
        if n.kind == Kind::Atom {
            let found = find_nearest_layer(t, layers, n.id.as_str());
            match found {
                Some(k) => {
                    map.insert(n.id.clone(), k);
                },
                None => {},
            }
            proof {
                assert forall|f: Seq<char>|
                    crate::text::place(#[trigger] value_of(map@, f)) == (if atom_named(
                        *t,
                        f,
                        i + 1,
                    ) {
                        nearest_layer(*t, layers@, f)
                    } else {
                        None
                    }) by {
                    assert(crate::text::place(value_of(before, f)) == (if atom_named(
                        *t,
                        f,
                        i as int,
                    ) {
                        nearest_layer(*t, layers@, f)
                    } else {
                        None
                    }));
                    if f == id {
                        assert(t.nodes@[i as int].1.id@ == f);
                        assert(atom_named(*t, f, i + 1));
                    } else {
                        assert(value_of(map@, f) == value_of(before, f));
                        assert(atom_named(*t, f, i + 1) <==> atom_named(*t, f, i as int));
                    }
                }
            }
        } else {
            proof {
                assert forall|f: Seq<char>| atom_named(*t, f, i + 1) <==> #[trigger] atom_named(
                    *t,
                    f,
                    i as int,
                ) by {}
            }
        }
        i += 1;
    }
    map
}

fn check_edges(
    t: &Tree,
    layers: &Vec<String>,
    map: &Table<usize, false>,
    from: &str,
    set: &Names,
    out: &mut Vec<Finding>,
)
    requires
        forall|f: Seq<char>|
            crate::text::place(#[trigger] value_of(map@, f)) == file_layer(*t, layers@, f),
        forall|f: Seq<char>|
            (#[trigger] value_of(map@, f)) is Some ==> value_of(map@, f)->0 < layers.len(),
    ensures
        finding_views(final(out)@) == finding_views(old(out)@) + gather(
            set@.len() as int,
            upward_finding(*t, layers@, from@, set@),
        ),
{
    let ghost before = finding_views(out@);
    let size = set.len();
    let here = map.get(from);
    let mut i: usize = 0;
    while i < size
        invariant
            i <= size == set@.len(),
            forall|f: Seq<char>|
                crate::text::place(#[trigger] value_of(map@, f)) == file_layer(*t, layers@, f),
            forall|f: Seq<char>|
                (#[trigger] value_of(map@, f)) is Some ==> value_of(map@, f)->0 < layers.len(),
            match here {
                Some(k) => value_of(map@, from@) == Some(*k),
                None => value_of(map@, from@) is None,
            },
            finding_views(out@) =~= before + gather(
                i as int,
                upward_finding(*t, layers@, from@, set@),
            ),
        decreases size - i,
    {
        let to = set.name(i);
        let there = map.get(to.as_str());
        assert(crate::text::place(value_of(map@, from@)) == file_layer(*t, layers@, from@));
        assert(crate::text::place(value_of(map@, to@)) == file_layer(*t, layers@, to@));
        match (here, there) {
            (Some(f), Some(u)) => {
                if *u > *f {
                    let mut message = cat7(
                        from,
                        " (layer '",
                        layers[*f].as_str(),
                        "') depends UPWARD on ",
                        to.as_str(),
                        " (layer '",
                        layers[*u].as_str(),
                    );
                    message.append("')");
                    let mut related: Vec<Location> = Vec::new();
                    related.push(Location::file(to.clone()));
                    assert(crate::finding::location_views(related@) =~= seq![
                        (LocationView { file: to@, line: None }),
                    ]);
                    let f = Finding::new(
                        "conformance-layering",
                        Severity::Error,
                        message,
                        Location::file(from.to_owned()),
                    );
                    emit(
                        out,
                        f.with_related(related).with_fix(
                            "invert the dependency, or move the shared code down a layer".to_owned(),
                        ),
                    );
                }
            },
            _ => {},
        }
        i += 1;
    }
}

fn layering(t: &Tree, g: &CodeGraph, rules: &Rules, out: &mut Vec<Finding>)
    ensures
        finding_views(final(out)@) == finding_views(old(out)@) + layer_findings(*t, *g, *rules),
{
    let ghost before = finding_views(out@);
    if rules.layers.len() == 0 {
        assert(finding_views(out@) =~= before + layer_findings(*t, *g, *rules));
        return ;
    }
    let map = build_layer_map(t, &rules.layers);
    let total = g.file_deps.len();
    let mut i: usize = 0;
    while i < total
        invariant
            i <= total == g.file_deps@.len(),
            forall|f: Seq<char>|
                crate::text::place(#[trigger] value_of(map@, f)) == file_layer(
                    *t,
                    rules.layers@,
                    f,
                ),
            forall|f: Seq<char>|
                (#[trigger] value_of(map@, f)) is Some ==> value_of(map@, f)->0
                    < rules.layers.len(),
            finding_views(out@) =~= before + gather(
                i as int,
                upward_findings(*t, *g, rules.layers@),
            ),
        decreases total - i,
    {
        check_edges(
            t,
            &rules.layers,
            &map,
            g.file_deps.name(i).as_str(),
            g.file_deps.value(i),
            out,
        );
        i += 1;
    }
}

fn placement(g: &CodeGraph, rules: &Rules, out: &mut Vec<Finding>) -> (ms: Ghost<Seq<Misplacement>>)
    ensures
        lists_misplaced(g.file_deps@, ms@),
        finding_views(final(out)@) == finding_views(old(out)@) + placement_findings(*rules, ms@),
{
    let ghost before = finding_views(out@);
    let ms = g.misplacements();
    if !rules.enforce_placement {
        assert(finding_views(out@) =~= before + placement_findings(*rules, ms@));
        return Ghost(ms@);
    }
    let mut i: usize = 0;
    while i < ms.len()
        invariant
            i <= ms.len(),
            finding_views(out@) =~= before + gather(i as int, placement_finding(ms@)),
        decreases ms.len() - i,
    {
        let m = &ms[i];
        let here = if chars(m.current_dir.as_str()).len() == 0 {
            "the repo root"
        } else {
            m.current_dir.as_str()
        };
        let f = Finding::new(
            "conformance-placement",
            Severity::Error,
            cat5(
                "used only from ",
                m.suggested_dir.as_str(),
                "/ — belongs there, not in ",
                here,
                "/",
            ),
            Location::file(m.file.clone()),
        );
        emit(
            out,
            f.with_fix(
                cat5(
                    "bonsai apply ",
                    m.file.as_str(),
                    " ",
                    m.suggested_dir.as_str(),
                    "/… --write",
                ),
            ),
        );
        i += 1;
    }
    Ghost(ms@)
}

fn cycles(g: &CodeGraph, rules: &Rules, out: &mut Vec<Finding>) -> (cs: Ghost<Seq<Seq<Seq<char>>>>)
    ensures
        lists_cycles(g.file_deps@, cs@),
        finding_views(final(out)@) == finding_views(old(out)@) + cycle_findings(*rules, cs@),
{
    let ghost before = finding_views(out@);
    let found = g.dependency_cycles();
    let ghost cs = groups(found@);
    if !rules.forbid_cycles {
        assert(finding_views(out@) =~= before + cycle_findings(*rules, cs));
        return Ghost(cs);
    }
    let mut i: usize = 0;
    while i < found.len()
        invariant
            i <= found.len(),
            cs == groups(found@),
            finding_views(out@) =~= before + gather(i as int, cycle_finding(cs)),
        decreases found.len() - i,
    {
        let c = &found[i];
        assert(cs[i as int] == texts(c@));
        assert(texts(c@).len() == c@.len());
        let head = if c.len() > 0 {
            assert(texts(c@)[0] == c@[0]@);
            c[0].clone()
        } else {
            let none = String::new();
            assert(none@ =~= Seq::<char>::empty());
            none
        };
        let f = Finding::new(
            "structure-cycle",
            Severity::Error,
            cat4(
                "dependency cycle among ",
                decimal_usize(c.len()).as_str(),
                " modules: ",
                join(c, " → ").as_str(),
            ),
            Location::file(head),
        );
        emit(
            out,
            f.with_fix(
                "break the cycle: extract the shared piece to a lower layer, or invert one edge".to_owned(),
            ),
        );
        i += 1;
    }
    Ghost(cs)
}

/// Holds the declared rules against a tree, and against a code graph where there is one.
pub fn evaluate(tree: &Tree, graph: Option<&CodeGraph>, rules: &Rules) -> (r: Vec<Finding>)
    requires
        rules.max_depth > 0 ==> tree.foldable(),
    ensures
        judged(finding_views(r@), *tree, graph, *rules),
{
    let mut out: Vec<Finding> = Vec::new();
    assert(finding_views(out@) =~= Seq::<FindingView>::empty());
    bounded_growth(tree, rules, &mut out);
    let Ghost(depth) = abstraction_bounds(tree, rules, &mut out);
    let ghost base = growth_findings(*tree, *rules) + bound_findings(*tree, *rules, depth);
    assert(finding_views(out@) =~= base);
    match graph {
        Some(g) => {
            layering(tree, g, rules, &mut out);
            let Ghost(ms) = placement(g, rules, &mut out);
            let Ghost(cs) = cycles(g, rules, &mut out);
            proof {
                let a = layer_findings(*tree, *g, *rules);
                let b = placement_findings(*rules, ms);
                let c = cycle_findings(*rules, cs);
                assert(finding_views(out@) =~= base + (a + b + c));
                assert(graph_findings(*tree, *g, *rules, ms, cs) == a + b + c);
            }
        },
        None => {
            proof {
                let ms: Seq<Misplacement> = Seq::empty();
                let cs: Seq<Seq<Seq<char>>> = Seq::empty();
                let b = placement_findings(*rules, ms);
                let c = cycle_findings(*rules, cs);
            }
        },
    }
    out
}

// ── what is let through ────────────────────────────────────────────────────────────────

/// Whether a pattern matches a path: `*` and `**` match every one, `dir/**` and `pre*` those
/// that begin so, `*suf` those that end so, and anything else itself alone.
pub open spec fn glob(pattern: Seq<char>, path: Seq<char>) -> bool {
    if pattern == "*"@ || pattern == "**"@ {
        true
    } else {
        match (ahead(pattern, "/**"@), ahead(pattern, "*"@), behind(pattern, "*"@)) {
            (Some(pre), _, _) => starts(path, pre),
            (None, Some(pre), _) => starts(path, pre),
            (None, None, Some(suf)) => ends(path, suf),
            (None, None, None) => path == pattern,
        }
    }
}

/// Whether a pattern names a rule: as itself, by the family before its hyphen, or as any.
pub open spec fn names_rule(pattern: Seq<char>, rule: Seq<char>) -> bool {
    pattern == "*"@ || rule == pattern || starts(rule, pattern + "-"@)
}

/// Whether an entry of the list lets a finding through: a rule, and perhaps a pattern of files
/// behind a colon.
pub open spec fn lets_through(entry: Seq<char>, f: FindingView) -> bool {
    match cut(entry, ":"@) {
        Some((rule, path)) => names_rule(rule, f.rule) && glob(path, f.location.file),
        None => names_rule(entry, f.rule),
    }
}

/// Whether some entry of the list lets a finding through.
pub open spec fn allowed(allow: Seq<Seq<char>>, f: FindingView) -> bool {
    exists|i: int| 0 <= i < allow.len() && lets_through(#[trigger] allow[i], f)
}

/// The finding at a position, where whether it is let through is `exempt`.
pub open spec fn sifted(fs: Seq<FindingView>, allow: Seq<Seq<char>>, exempt: bool) -> spec_fn(
    int,
) -> Seq<FindingView> {
    |i: int|
        if allowed(allow, fs[i]) == exempt {
            seq![fs[i]]
        } else {
            seq![]
        }
}

/// The findings that are let through, or those that are not.
pub open spec fn sift(fs: Seq<FindingView>, allow: Seq<Seq<char>>, exempt: bool) -> Seq<
    FindingView,
> {
    gather(fs.len() as int, sifted(fs, allow, exempt))
}

fn glob_match(pattern: &str, path: &str) -> (r: bool)
    ensures
        r == glob(pattern@, path@),
{
    if same(pattern, "*") || same(pattern, "**") {
        return true;
    }
    match strip_suffix(pattern, "/**") {
        Some(pre) => starts_with(path, pre.as_str()),
        None => match strip_suffix(pattern, "*") {
            Some(pre) => starts_with(path, pre.as_str()),
            None => match strip_prefix(pattern, "*") {
                Some(suf) => ends_with(path, suf.as_str()),
                None => same(path, pattern),
            },
        },
    }
}

fn does_name_rule(pattern: &str, rule: &str) -> (r: bool)
    ensures
        r == names_rule(pattern@, rule@),
{
    same(pattern, "*") || same(rule, pattern) || starts_with(rule, cat2(pattern, "-").as_str())
}

fn matches_allow(f: &Finding, entry: &str) -> (r: bool)
    ensures
        r == lets_through(entry@, f@),
{
    match split_once(entry, ":") {
        Some((rule, path)) => does_name_rule(rule.as_str(), f.rule.as_str()) && glob_match(
            path.as_str(),
            f.location.file.as_str(),
        ),
        None => does_name_rule(entry, f.rule.as_str()),
    }
}

fn is_allowed(allow: &Vec<String>, f: &Finding) -> (r: bool)
    ensures
        r == allowed(texts(allow@), f@),
{
    let mut i: usize = 0;
    while i < allow.len()
        invariant
            i <= allow.len(),
            forall|k: int| 0 <= k < i ==> !lets_through(#[trigger] texts(allow@)[k], f@),
        decreases allow.len() - i,
    {
        assert(texts(allow@)[i as int] == allow@[i as int]@);
        if matches_allow(f, allow[i].as_str()) {
            return true;
        }
        i += 1;
    }
    false
}

/// Parts the findings into those that stand and those that the list lets through.
pub fn apply_allow(findings: Vec<Finding>, allow: &Vec<String>) -> (r: (Vec<Finding>, Vec<Finding>))
    ensures
        finding_views(r.0@) == sift(finding_views(findings@), texts(allow@), false),
        finding_views(r.1@) == sift(finding_views(findings@), texts(allow@), true),
{
    let ghost fs = finding_views(findings@);
    let ghost list = texts(allow@);
    let mut kept: Vec<Finding> = Vec::new();
    let mut exempted: Vec<Finding> = Vec::new();
    let mut i: usize = 0;
    while i < findings.len()
        invariant
            i <= findings.len(),
            fs == finding_views(findings@),
            list == texts(allow@),
            finding_views(kept@) =~= gather(i as int, sifted(fs, list, false)),
            finding_views(exempted@) =~= gather(i as int, sifted(fs, list, true)),
        decreases findings.len() - i,
    {
        let f = &findings[i];
        assert(fs[i as int] == f@);
        if is_allowed(allow, f) {
            emit(&mut exempted, f.copy());
        } else {
            emit(&mut kept, f.copy());
        }
        i += 1;
    }
    (kept, exempted)
}

/// Letting through loses nothing and doubles nothing: every finding either stands or is let
/// through, and no more come out than went in.
pub proof fn sifting_partitions(fs: Seq<FindingView>, allow: Seq<Seq<char>>)
    ensures
        sift(fs, allow, false).len() + sift(fs, allow, true).len() == fs.len(),
        forall|f: FindingView| #[trigger]
            fs.contains(f) <==> sift(fs, allow, false).contains(f) || sift(fs, allow, true).contains(
                f,
            ),
        forall|f: FindingView| #[trigger]
            sift(fs, allow, false).contains(f) ==> !allowed(allow, f),
        forall|f: FindingView| #[trigger] sift(fs, allow, true).contains(f) ==> allowed(allow, f),
{
    sifted_len(fs, allow, fs.len() as int);
    assert forall|f: FindingView| #[trigger] fs.contains(f) implies sift(fs, allow, false).contains(f)
        || sift(fs, allow, true).contains(f) by {
        let i = choose|i: int| 0 <= i < fs.len() && fs[i] == f;
        sifted_has(fs, allow, allowed(allow, f), f, i);
    }
    assert forall|f: FindingView, e: bool| #[trigger] sift(fs, allow, e).contains(f) implies allowed(
        allow,
        f,
    ) == e && fs.contains(f) by {
        crate::text::gather_contains(fs.len() as int, sifted(fs, allow, e), f);
        let i = choose|i: int| 0 <= i < fs.len() && (#[trigger] (sifted(fs, allow, e))(i)).contains(f);
        let one = (sifted(fs, allow, e))(i);
        let k = choose|k: int| 0 <= k < one.len() && one[k] == f;
        assert(fs[i] == f);
    }
}

proof fn sifted_has(fs: Seq<FindingView>, allow: Seq<Seq<char>>, e: bool, f: FindingView, i: int)
    requires
        0 <= i < fs.len(),
        fs[i] == f,
        allowed(allow, f) == e,
    ensures
        sift(fs, allow, e).contains(f),
{
    crate::text::gather_contains(fs.len() as int, sifted(fs, allow, e), f);
    assert((sifted(fs, allow, e))(i)[0] == f);
    assert((sifted(fs, allow, e))(i).contains(f));
}

proof fn sifted_len(fs: Seq<FindingView>, allow: Seq<Seq<char>>, n: int)
    requires
        0 <= n <= fs.len(),
    ensures
        gather(n, sifted(fs, allow, false)).len() + gather(n, sifted(fs, allow, true)).len() == n,
    decreases n,
{
    if n > 0 {
        sifted_len(fs, allow, n - 1);
    }
}

/// What stands in the brackets behind the marker on a line, empty where there are none; nothing
/// where there is no marker, or its brackets do not close.
pub open spec fn allow_marker(line: Seq<char>) -> Option<Seq<char>> {
    match cut(line, "bonsai:allow"@) {
        Some((_, after)) => match behind(after, "("@) {
            Some(rest) => match cut(rest, ")"@) {
                Some((inside, _)) => Some(inside),
                None => None,
            },
            None => Some(Seq::empty()),
        },
        None => None,
    }
}

/// Whether a name in a marker is that of a rule, or of its family.
pub open spec fn marks(name: Seq<char>, rule: Seq<char>) -> bool {
    trimmed(name) == rule || starts(rule, trimmed(name) + "-"@)
}

/// Whether a marker waives a rule: without names every rule, else those that it names.
pub open spec fn marker_waives(marker: Seq<char>, rule: Seq<char>) -> bool {
    let s = trimmed(marker);
    s.len() == 0 || exists|i: int|
        0 <= i < parts(s, ',').len() && marks(#[trigger] parts(s, ',')[i], rule)
}

/// Whether line `n`, counted from 1, waives a rule.
pub open spec fn line_waives(ls: Seq<Seq<char>>, n: int, rule: Seq<char>) -> bool {
    1 <= n <= ls.len() && match allow_marker(ls[n - 1]) {
        Some(m) => marker_waives(m, rule),
        None => false,
    }
}

/// Whether the source waives a finding: on its own line, or on the line above.
pub open spec fn waived(ws: Workspace, f: FindingView) -> bool {
    match (f.location.line, value_of(ws.files@, plain(f.location.file))) {
        (Some(n), Some(text)) => line_waives(lines_of(text@), n as int, f.rule) || line_waives(
            lines_of(text@),
            n - 1,
            f.rule,
        ),
        _ => false,
    }
}

/// The finding at a position, where it is not waived.
pub open spec fn unwaived(ws: Workspace, fs: Seq<FindingView>) -> spec_fn(int) -> Seq<FindingView> {
    |i: int|
        if waived(ws, fs[i]) {
            seq![]
        } else {
            seq![fs[i]]
        }
}

fn parse_allow_comment(line: &str) -> (r: Option<String>)
    ensures
        text_opt(r) == allow_marker(line@),
{
    match split_once(line, "bonsai:allow") {
        Some((_head, after)) => match strip_prefix(after.as_str(), "(") {
            Some(rest) => match split_once(rest.as_str(), ")") {
                Some((inside, _tail)) => Some(inside),
                None => None,
            },
            None => {
                let bare = String::new();
                assert(bare@ =~= Seq::<char>::empty());
                Some(bare)
            },
        },
        None => None,
    }
}

fn does_waive(marker: &str, rule: &str) -> (r: bool)
    ensures
        r == marker_waives(marker@, rule@),
{
    let s = trim(marker);
    if chars(s.as_str()).len() == 0 {
        return true;
    }
    let ps = split(s.as_str(), ',');
    let ghost all = parts(s@, ',');
    let mut i: usize = 0;
    while i < ps.len()
        invariant
            i <= ps.len(),
            s@ == trimmed(marker@),
            s@.len() > 0,
            all == texts(ps@),
            all == parts(s@, ','),
            forall|k: int| 0 <= k < i ==> !marks(#[trigger] all[k], rule@),
        decreases ps.len() - i,
    {
        assert(all[i as int] == ps@[i as int]@);
        let name = trim(ps[i].as_str());
        if same(name.as_str(), rule) || starts_with(rule, cat2(name.as_str(), "-").as_str()) {
            assert(marks(all[i as int], rule@));
            return true;
        }
        i += 1;
    }
    assert(all.len() == ps@.len());
    false
}

fn line_suppresses(ls: &Vec<String>, n: usize, rule: &str) -> (r: bool)
    ensures
        r == line_waives(texts(ls@), n as int, rule@),
{
    if n == 0 || n > ls.len() {
        return false;
    }
    assert(texts(ls@)[n - 1] == ls@[n - 1]@);
    match parse_allow_comment(ls[n - 1].as_str()) {
        Some(m) => does_waive(m.as_str(), rule),
        None => false,
    }
}

fn is_waived(ws: &Workspace, f: &Finding) -> (r: bool)
    ensures
        r == waived(*ws, f@),
{
    match (f.location.line, ws.files.get(f.location.file.as_str())) {
        (Some(n), Some(text)) => {
            let ls = lines(text.as_str());
            let here = line_suppresses(&ls, n as usize, f.rule.as_str());
            let above = if n > 0 {
                line_suppresses(&ls, n as usize - 1, f.rule.as_str())
            } else {
                false
            };
            here || above
        },
        _ => false,
    }
}

/// Drops the findings that the source waives by a comment on their line or on the line above,
/// and says how many they were. A finding without a line, or in a file that is not there, stays.
pub fn apply_inline_suppression(ws: &Workspace, findings: Vec<Finding>) -> (r: (
    Vec<Finding>,
    usize,
))
    ensures
        finding_views(r.0@) == gather(
            findings@.len() as int,
            unwaived(*ws, finding_views(findings@)),
        ),
        r.1 == findings@.len() - r.0@.len(),
{
    let ghost fs = finding_views(findings@);
    let mut kept: Vec<Finding> = Vec::new();
    let mut dropped: usize = 0;
    let mut i: usize = 0;
    while i < findings.len()
        invariant
            i <= findings.len(),
            fs == finding_views(findings@),
            kept.len() + dropped == i,
            finding_views(kept@) =~= gather(i as int, unwaived(*ws, fs)),
        decreases findings.len() - i,
    {
        let f = &findings[i];
        assert(fs[i as int] == f@);
        if is_waived(ws, f) {
            dropped += 1;
        } else {
            emit(&mut kept, f.copy());
        }
        i += 1;
    }
    (kept, dropped)
}

} // verus!
