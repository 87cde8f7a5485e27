//! What the commands say and decide, apart from reading and writing files.
use vstd::prelude::*;

use crate::blueprint::WitnessResult;
use crate::ffi::{edge_views, EdgeView, ExportKind, FfiEdge, FfiGraph, PyExport};
use crate::moves::{add_capped, capped, edit_views, other_paths, MovePlan};
use crate::order::{canonical, Names, Table};
use crate::outline::{pad, padded};
use crate::place::{rank_dirs, ranking, tally_views, Placement, TallyView};
use crate::scip::{CodeGraph, Misplacement, Sym};
use crate::summary::shown_symbol;
use crate::text::{
    cat2, cat3, cat4, cat5, cat6, cat7, chars, dec, dec_int, decimal_i64, decimal_usize, gather,
    join, joined, put, put_all, rcut, rsplit_once, same, split_whitespace, texts, words,
};

verus! {

// ── witnesses ──────────────────────────────────────────────────────────────────────────

/// The line on a witness.
pub open spec fn witness_line(rs: Seq<WitnessResult>) -> spec_fn(int) -> Seq<Seq<char>> {
    |i: int|
        seq![
            (if rs[i].passed {
                "PASS"@
            } else {
                "FAIL"@
            }) + " "@ + rs[i].id@ + (if rs[i].detail@.len() == 0 {
                ""@
            } else {
                ": "@ + rs[i].detail@
            }),
        ]
}

/// The lines on witnesses.
pub fn witness_lines(results: &Vec<WitnessResult>) -> (r: Vec<String>)
    ensures
        texts(r@) == gather(results@.len() as int, witness_line(results@)),
{
    let mut out: Vec<String> = Vec::new();
    let mut i: usize = 0;
    while i < results.len()
        invariant
            i <= results.len(),
            texts(out@) =~= gather(i as int, witness_line(results@)),
        decreases results.len() - i,
    {
        let w = &results[i];
        let verdict = if w.passed {
            "PASS"
        } else {
            "FAIL"
        };
        let detail = if chars(w.detail.as_str()).len() == 0 {
            "".to_owned()
        } else {
            cat2(": ", w.detail.as_str())
        };
        put(&mut out, cat4(verdict, " ", w.id.as_str(), detail.as_str()));
        i += 1;
    }
    out
}

/// Whether every witness passed.
pub fn all_passed(results: &Vec<WitnessResult>) -> (r: bool)
    ensures
        r == forall|i: int| 0 <= i < results@.len() ==> (#[trigger] results@[i]).passed,
{
    let mut i: usize = 0;
    while i < results.len()
        invariant
            i <= results.len(),
            forall|k: int| 0 <= k < i ==> (#[trigger] results@[k]).passed,
        decreases results.len() - i,
    {
        if !results[i].passed {
            return false;
        }
        i += 1;
    }
    true
}

/// Why files are not written, where some of them are there: nothing is overwritten.
pub fn overwrite_refusal(existing: &Vec<String>) -> (r: Option<String>)
    ensures
        r is Some <==> existing@.len() > 0,
        r is Some ==> r->0@ == "refusing to overwrite scaffold files: "@ + joined(
            texts(existing@),
            ", "@,
        ),
{
    if existing.len() == 0 {
        None
    } else {
        Some(cat2("refusing to overwrite scaffold files: ", join(existing, ", ").as_str()))
    }
}

/// The program and the arguments of a command that is written in one line; none where it is empty.
pub fn command_parts(line: &str) -> (r: Option<(String, Vec<String>)>)
    ensures
        match r {
            Some((program, arguments)) => words(line@) == seq![program@] + texts(arguments@),
            None => words(line@).len() == 0,
        },
{
    let ws = split_whitespace(line);
    let ghost all = texts(ws@);
    assert(all.len() == ws@.len());
    if ws.len() == 0 {
        return None;
    }
    let mut arguments: Vec<String> = Vec::new();
    let mut i: usize = 1;
    while i < ws.len()
        invariant
            1 <= i <= ws.len(),
            all == texts(ws@),
            texts(arguments@) =~= all.subrange(1, i as int),
        decreases ws.len() - i,
    {
        put(&mut arguments, ws[i].clone());
        i += 1;
    }
    assert(all =~= seq![ws@[0]@] + all.subrange(1, all.len() as int));
    Some((ws[0].clone(), arguments))
}

// ── moves ──────────────────────────────────────────────────────────────────────────────

/// The last part of a path.
pub open spec fn base_of(path: Seq<char>) -> Seq<char> {
    match rcut(path, "/"@) {
        Some((_, b)) => b,
        None => path,
    }
}

/// Where a file comes to stand in a directory.
pub open spec fn moved_to(dir: Seq<char>, file: Seq<char>) -> Seq<char> {
    if dir.len() == 0 {
        base_of(file)
    } else {
        dir + "/"@ + base_of(file)
    }
}

/// Where a file comes to stand in a directory.
pub fn destination(dir: &str, file: &str) -> (r: String)
    ensures
        r@ == moved_to(dir@, file@),
{
    let base = match rsplit_once(file, "/") {
        Some((_d, b)) => b,
        None => file.to_owned(),
    };
    if chars(dir).len() == 0 {
        base
    } else {
        cat3(dir, "/", base.as_str())
    }
}

/// The line on what a plan does.
pub fn plan_line(plan: &MovePlan) -> (r: String)
    ensures
        r@ == dec(plan.edits@.len()) + " edit(s) across "@ + dec(
            other_paths(plan.move_view(), edit_views(plan.edits@)).len(),
        ) + " file(s), "@ + dec(plan.warnings@.len()) + " warning(s)"@,
{
    cat6(
        decimal_usize(plan.edits.len()).as_str(),
        " edit(s) across ",
        decimal_usize(plan.touched_files()).as_str(),
        " file(s), ",
        decimal_usize(plan.warnings.len()).as_str(),
        " warning(s)",
    )
}

/// What becomes of a proposal.
#[derive(Debug, Clone, Copy, PartialEq, Eq, Structural)]
pub enum Proposal {
    /// It is only shown.
    Shown,
    /// It is carried out.
    Applied,
    /// It has warnings, and is left to be looked at.
    Skipped,
}

/// What becomes of a plan: it is carried out where that is asked for and nothing was left open.
pub fn proposal(plan: &MovePlan, write: bool) -> (r: Proposal)
    ensures
        r == if !write {
            Proposal::Shown
        } else if plan.warnings@.len() == 0 {
            Proposal::Applied
        } else {
            Proposal::Skipped
        },
{
    if !write {
        Proposal::Shown
    } else if plan.warnings.len() == 0 {
        Proposal::Applied
    } else {
        Proposal::Skipped
    }
}

/// The line on a file that belongs elsewhere.
pub fn stray_line(m: &Misplacement) -> (r: String)
    ensures
        r@ == "▸ "@ + m.file@ + " used only from "@ + m.suggested_dir@ + "/ ("@ + dec(
            m.dependents as nat,
        ) + " dependents)"@,
{
    cat7(
        "▸ ",
        m.file.as_str(),
        " used only from ",
        m.suggested_dir.as_str(),
        "/ (",
        decimal_usize(m.dependents).as_str(),
        " dependents)",
    )
}

// ── placement ──────────────────────────────────────────────────────────────────────────

/// A directory as it is shown.
pub open spec fn shown_dir(d: Seq<char>) -> Seq<char> {
    if d.len() == 0 {
        "."@
    } else {
        d + "/"@
    }
}

fn show_dir(d: &str) -> (r: String)
    ensures
        r@ == shown_dir(d@),
{
    if chars(d).len() == 0 {
        ".".to_owned()
    } else {
        cat2(d, "/")
    }
}

/// The line on a directory that a file is coupled to.
pub open spec fn coupling_line(ts: Seq<(String, usize)>) -> spec_fn(int) -> Seq<Seq<char>> {
    |i: int| seq!["    "@ + padded(dec(ts[i].1 as nat), 3) + "×  "@ + shown_dir(ts[i].0@)]
}

/// The lines on where a file belongs.
pub open spec fn placement_lines_of(p: Placement) -> Seq<Seq<char>> {
    seq![
        "  signal: "@ + (if p.from_graph {
            "SCIP coupling (exact)"@
        } else {
            "crate:: import scan (heuristic)"@
        }),
    ] + (if p.file@.len() == 0 {
        seq![]
    } else {
        seq!["  currently in: "@ + shown_dir(p.current_dir@)]
    }) + (match p.home() {
        Some(home) => seq![
            (if home == p.current_dir@ {
                "  ✓ already in its coupled home: "@
            } else {
                "  → belongs in: "@
            }) + shown_dir(home),
        ],
        None => seq![],
    }) + seq!["  coupling by directory:"@] + gather(
        crate::summary::shown(p.ranked@.len(), 6),
        coupling_line(p.ranked@),
    )
}

/// The lines on where a file belongs: what it was read off, where it is, where it belongs and
/// which directories it is coupled to.
pub fn placement_lines(p: &Placement) -> (r: Vec<String>)
    ensures
        texts(r@) == placement_lines_of(*p),
{
    let mut out: Vec<String> = Vec::new();
    put(
        &mut out,
        cat2(
            "  signal: ",
            if p.from_graph {
                "SCIP coupling (exact)"
            } else {
                "crate:: import scan (heuristic)"
            },
        ),
    );
    if chars(p.file.as_str()).len() != 0 {
        put(&mut out, cat2("  currently in: ", show_dir(p.current_dir.as_str()).as_str()));
    }
    if let Some(home) = p.recommended() {
        let said = if p.well_placed() {
            "  ✓ already in its coupled home: "
        } else {
            "  → belongs in: "
        };
        put(&mut out, cat2(said, show_dir(home).as_str()));
    }
    put(&mut out, "  coupling by directory:".to_owned());
    let ghost head = texts(out@);
    let total = p.ranked.len();
    let most: usize = if total < 6 {
        total
    } else {
        6
    };
    let mut i: usize = 0;
    while i < most
        invariant
            i <= most <= p.ranked@.len(),
            texts(out@) =~= head + gather(i as int, coupling_line(p.ranked@)),
        decreases most - i,
    {
        put(
            &mut out,
            cat4(
                "    ",
                pad(decimal_usize(p.ranked[i].1).as_str(), 3).as_str(),
                "×  ",
                show_dir(p.ranked[i].0.as_str()).as_str(),
            ),
        );
        i += 1;
    }
    assert(texts(out@) =~= placement_lines_of(*p));
    out
}

// ── the code graph ─────────────────────────────────────────────────────────────────────

/// The files of the symbols, as they come.
pub open spec fn symbol_file(rows: Seq<(Seq<char>, Sym)>) -> spec_fn(int) -> Seq<Seq<char>> {
    |i: int| seq![rows[i].1.file@]
}

/// How many links the first `n` rows have, as far as they can be counted.
pub open spec fn links_upto(rows: Seq<(Seq<char>, Names)>, n: int) -> int
    decreases n,
{
    if n <= 0 {
        0
    } else {
        capped(links_upto(rows, n - 1) + rows[n - 1].1@.len())
    }
}

/// A name among several.
pub open spec fn name_at(set: Seq<(Seq<char>, ())>) -> spec_fn(int) -> Seq<Seq<char>> {
    |k: int| seq![set[k].0]
}

/// What the thing at a row refers to.
pub open spec fn targets_at(rows: Seq<(Seq<char>, Names)>) -> spec_fn(int) -> Seq<Seq<char>> {
    |i: int| gather(rows[i].1@.len() as int, name_at(rows[i].1@))
}

/// The symbols with how often they are referred to, most often first.
pub open spec fn fan_in_of(g: CodeGraph) -> Seq<TallyView> {
    ranking(gather(g.refs@.len() as int, targets_at(g.refs@)))
}

/// The name that a symbol of a graph is shown by.
pub open spec fn graph_name(g: CodeGraph, id: Seq<char>) -> Seq<char> {
    match crate::order::value_of(g.symbols@, id) {
        Some(s) => shown_symbol(s, id),
        None => id,
    }
}

/// The line on a symbol that is often referred to.
pub open spec fn fan_in_line(g: CodeGraph, ts: Seq<TallyView>) -> spec_fn(int) -> Seq<Seq<char>> {
    |i: int| seq!["    "@ + padded(dec(ts[i].count), 3) + "×  "@ + graph_name(g, ts[i].dir)]
}

/// The line on a symbol that nothing uses.
pub open spec fn dead_line(ss: Seq<Sym>) -> spec_fn(int) -> Seq<Seq<char>> {
    |i: int|
        seq![
            "    kind "@ + padded(dec_int(ss[i].kind as int), 2) + "  "@ + ss[i].file@ + ":"@
                + dec_int(ss[i].def.sl + 1) + "  "@ + shown_symbol(ss[i], "?"@),
        ]
}

/// The lines on a code graph.
pub open spec fn index_lines_of(g: CodeGraph, dead: Seq<Sym>) -> Seq<Seq<char>> {
    seq![
        "bonsai index — "@ + dec(g.symbols@.len()) + " symbols across "@ + dec(
            canonical(gather(g.symbols@.len() as int, symbol_file(g.symbols@))).len(),
        ) + " files, "@ + dec(links_upto(g.refs@, g.refs@.len() as int) as nat)
            + " ref edges, "@ + dec(g.occurrences as nat) + " refs seen"@,
        "  file dependency edges: "@ + dec(
            links_upto(g.file_deps@, g.file_deps@.len() as int) as nat,
        ),
        "  top fan-in symbols:"@,
    ] + gather(crate::summary::shown(fan_in_of(g).len(), 8), fan_in_line(g, fan_in_of(g))) + seq![
        "  dead (unreachable from pub API + main): "@ + dec(dead.len()),
    ] + gather(crate::summary::shown(dead.len(), 20), dead_line(dead))
}

fn count_files(g: &CodeGraph) -> (r: usize)
    ensures
        r == canonical(gather(g.symbols@.len() as int, symbol_file(g.symbols@))).len(),
{
    let mut files: Vec<String> = Vec::new();
    let total = g.symbols.len();
    let mut i: usize = 0;
    while i < total
        invariant
            i <= total == g.symbols@.len(),
            texts(files@) =~= gather(i as int, symbol_file(g.symbols@)),
        decreases total - i,
    {
        put(&mut files, g.symbols.value(i).file.clone());
        i += 1;
    }
    let ghost raw = texts(files@);
    let set = crate::order::sort_dedup(files);
    proof {
        crate::order::sorted_set_is_canonical(texts(set@), raw);
        assert(texts(set@).len() == set@.len());
    }
    set.len()
}

fn count_links(t: &Table<Names, false>) -> (r: usize)
    ensures
        r == links_upto(t@, t@.len() as int),
{
    let total = t.len();
    let mut n: usize = 0;
    let mut i: usize = 0;
    while i < total
        invariant
            i <= total == t@.len(),
            n == links_upto(t@, i as int),
        decreases total - i,
    {
        n = add_capped(n, t.value(i).len());
        i += 1;
    }
    n
}

fn list_names(set: &Names) -> (r: Vec<String>)
    ensures
        texts(r@) == gather(set@.len() as int, name_at(set@)),
{
    let mut r: Vec<String> = Vec::new();
    let mut k: usize = 0;
    while k < set.len()
        invariant
            k <= set@.len(),
            texts(r@) =~= gather(k as int, name_at(set@)),
        decreases set@.len() - k,
    {
        put(&mut r, set.name(k).clone());
        k += 1;
    }
    r
}

/// The symbols with how often they are referred to: the most often first, then by name.
pub fn fan_in(g: &CodeGraph) -> (r: Vec<(String, usize)>)
    ensures
        tally_views(r@) == fan_in_of(*g),
{
    let mut all: Vec<String> = Vec::new();
    let total = g.refs.len();
    let mut i: usize = 0;
    while i < total
        invariant
            i <= total == g.refs@.len(),
            texts(all@) =~= gather(i as int, targets_at(g.refs@)),
        decreases total - i,
    {
        put_all(&mut all, &list_names(g.refs.value(i)));
        i += 1;
    }
    rank_dirs(all)
}

fn show_symbol(s: &Sym, otherwise: &str) -> (r: String)
    ensures
        r@ == shown_symbol(*s, otherwise@),
{
    if chars(s.display.as_str()).len() == 0 {
        otherwise.to_owned()
    } else {
        s.display.clone()
    }
}

fn list_fan_in(g: &CodeGraph) -> (r: Vec<String>)
    ensures
        texts(r@) == gather(
            crate::summary::shown(fan_in_of(*g).len(), 8),
            fan_in_line(*g, fan_in_of(*g)),
        ),
{
    let ranked = fan_in(g);
    let ghost ts = fan_in_of(*g);
    assert(tally_views(ranked@).len() == ranked@.len());
    let total = ranked.len();
    let most: usize = if total < 8 {
        total
    } else {
        8
    };
    let mut out: Vec<String> = Vec::new();
    let mut i: usize = 0;
    while i < most
        invariant
            i <= most <= ranked@.len(),
            ts == tally_views(ranked@),
            texts(out@) =~= gather(i as int, fan_in_line(*g, ts)),
        decreases most - i,
    {
        let (id, n) = &ranked[i];
        assert(ts[i as int] == (TallyView { dir: id@, count: *n as nat }));
        let name = match g.symbols.get(id.as_str()) {
            Some(s) => show_symbol(s, id.as_str()),
            None => id.clone(),
        };
        put(
            &mut out,
            cat4("    ", pad(decimal_usize(*n).as_str(), 3).as_str(), "×  ", name.as_str()),
        );
        i += 1;
    }
    out
}

fn list_dead_lines(dead: &Vec<Sym>) -> (r: Vec<String>)
    ensures
        texts(r@) == gather(crate::summary::shown(dead@.len(), 20), dead_line(dead@)),
{
    let total = dead.len();
    let most: usize = if total < 20 {
        total
    } else {
        20
    };
    let mut out: Vec<String> = Vec::new();
    let mut i: usize = 0;
    while i < most
        invariant
            i <= most <= dead@.len(),
            texts(out@) =~= gather(i as int, dead_line(dead@)),
        decreases most - i,
    {
        let s = &dead[i];
        let mut t = cat7(
            "    kind ",
            pad(decimal_i64(s.kind as i64).as_str(), 2).as_str(),
            "  ",
            s.file.as_str(),
            ":",
            decimal_i64(s.def.sl as i64 + 1).as_str(),
            "  ",
        );
        t.append(show_symbol(s, "?").as_str());
        put(&mut out, t);
        i += 1;
    }
    out
}

/// The lines on a code graph and on the symbols that nothing uses: how large it is, which symbols
/// are referred to most, and the first of those that nothing uses.
pub fn index_lines(g: &CodeGraph, dead: &Vec<Sym>) -> (r: Vec<String>)
    ensures
        texts(r@) == index_lines_of(*g, dead@),
{
    let mut out: Vec<String> = Vec::new();
    let head = cat6(
        "bonsai index — ",
        decimal_usize(g.symbols.len()).as_str(),
        " symbols across ",
        decimal_usize(count_files(g)).as_str(),
        " files, ",
        decimal_usize(count_links(&g.refs)).as_str(),
    );
    put(
        &mut out,
        cat4(
            head.as_str(),
            " ref edges, ",
            decimal_usize(g.occurrences).as_str(),
            " refs seen",
        ),
    );
    put(
        &mut out,
        cat2("  file dependency edges: ", decimal_usize(count_links(&g.file_deps)).as_str()),
    );
    put(&mut out, "  top fan-in symbols:".to_owned());
    put_all(&mut out, &list_fan_in(g));
    put(
        &mut out,
        cat2(
            "  dead (unreachable from pub API + main): ",
            decimal_usize(dead.len()).as_str(),
        ),
    );
    put_all(&mut out, &list_dead_lines(dead));
    assert(texts(out@) =~= index_lines_of(*g, dead@));
    out
}

/// Whether an index is older than some source file: the facts that it holds may no longer be true.
pub fn is_stale(index_time: u64, source_times: &Vec<u64>) -> (r: bool)
    ensures
        r == exists|i: int|
            0 <= i < source_times@.len() && #[trigger] source_times@[i] > index_time,
{
    let mut i: usize = 0;
    while i < source_times.len()
        invariant
            i <= source_times.len(),
            forall|k: int| 0 <= k < i ==> #[trigger] source_times@[k] <= index_time,
        decreases source_times.len() - i,
    {
        if source_times[i] > index_time {
            return true;
        }
        i += 1;
    }
    false
}

// ── the seam between Rust and Python ───────────────────────────────────────────────────

/// The module of the edge at a position.
pub open spec fn edge_module(es: Seq<EdgeView>) -> spec_fn(int) -> Seq<Seq<char>> {
    |i: int| seq![es[i].module]
}

/// The modules that edges lead to, in order and each once.
pub open spec fn edge_modules(es: Seq<EdgeView>) -> Seq<Seq<char>> {
    canonical(gather(es.len() as int, edge_module(es)))
}

/// The line on an edge to a module.
pub open spec fn edge_line(es: Seq<EdgeView>, module: Seq<char>) -> spec_fn(int) -> Seq<Seq<char>> {
    |i: int|
        if es[i].module == module {
            seq![
                "     "@ + es[i].py_file + ":"@ + dec(es[i].py_line as nat) + "  imports ["@ + (
                if es[i].names.len() == 0 {
                    "*"@
                } else {
                    joined(es[i].names, ", "@)
                }) + "]"@,
            ]
        } else {
            seq![]
        }
}

/// The file of the first edge to a module, from position `i` on.
pub open spec fn first_home(es: Seq<EdgeView>, module: Seq<char>, i: int) -> Seq<char>
    decreases es.len() - i,
{
    if i < 0 || i >= es.len() {
        "?"@
    } else if es[i].module == module {
        es[i].rust_file
    } else {
        first_home(es, module, i + 1)
    }
}

/// The lines on a module and on the edges that lead to it.
pub open spec fn module_lines(es: Seq<EdgeView>) -> spec_fn(int) -> Seq<Seq<char>> {
    |k: int|
        {
            let m = edge_modules(es)[k];
            seq![""@, "  ⟷ "@ + m + "  (Rust: "@ + first_home(es, m, 0) + ")"@] + gather(
                es.len() as int,
                edge_line(es, m),
            )
        }
}

/// How many of the first `n` exports are modules.
pub open spec fn modules_upto(es: Seq<PyExport>, n: int) -> nat
    decreases n,
{
    if n <= 0 {
        0
    } else {
        modules_upto(es, n - 1) + (if es[n - 1].kind == ExportKind::Module {
            1nat
        } else {
            0nat
        })
    }
}

/// The lines on the seam between Rust and Python.
pub open spec fn ffi_lines_of(g: FfiGraph) -> Seq<Seq<char>> {
    let es = edge_views(g.edges@);
    seq![
        "bonsai ffi — "@ + dec(g.exports@.len()) + " PyO3 exports ("@ + dec(
            modules_upto(g.exports@, g.exports@.len() as int),
        ) + " module(s)), "@ + dec(g.imports@.len()) + " Python imports, "@ + dec(g.edges@.len())
            + " stitched edge(s)"@,
    ] + gather(edge_modules(es).len() as int, module_lines(es)) + (if es.len() == 0 {
        seq![
            "  (no FFI boundary found — no #[pymodule] imported from Python under this root)"@,
        ]
    } else {
        seq![]
    })
}

fn count_modules(es: &Vec<PyExport>) -> (n: usize)
    ensures
        n == modules_upto(es@, es@.len() as int),
{
    let mut n: usize = 0;
    let mut i: usize = 0;
    while i < es.len()
        invariant
            i <= es.len(),
            n <= i,
            n == modules_upto(es@, i as int),
        decreases es.len() - i,
    {
        if es[i].kind == ExportKind::Module {
            n += 1;
        }
        i += 1;
    }
    n
}

fn list_modules(edges: &Vec<FfiEdge>) -> (r: Vec<String>)
    ensures
        texts(r@) == edge_modules(edge_views(edges@)),
{
    let ghost es = edge_views(edges@);
    let mut all: Vec<String> = Vec::new();
    let mut i: usize = 0;
    while i < edges.len()
        invariant
            i <= edges.len(),
            es == edge_views(edges@),
            texts(all@) =~= gather(i as int, edge_module(es)),
        decreases edges.len() - i,
    {
        assert(es[i as int] == edges@[i as int]@);
        put(&mut all, edges[i].module.clone());
        i += 1;
    }
    let ghost raw = texts(all@);
    let r = crate::order::sort_dedup(all);
    proof {
        crate::order::sorted_set_is_canonical(texts(r@), raw);
    }
    r
}

fn find_home(edges: &Vec<FfiEdge>, module: &str) -> (r: String)
    ensures
        r@ == first_home(edge_views(edges@), module@, 0),
{
    let ghost es = edge_views(edges@);
    let mut i: usize = 0;
    while i < edges.len()
        invariant
            i <= edges.len(),
            es == edge_views(edges@),
            first_home(es, module@, 0) == first_home(es, module@, i as int),
        decreases edges.len() - i,
    {
        assert(es[i as int] == edges@[i as int]@);
        if same(edges[i].module.as_str(), module) {
            return edges[i].rust_file.clone();
        }
        i += 1;
    }
    "?".to_owned()
}

fn list_edges(edges: &Vec<FfiEdge>, module: &str) -> (r: Vec<String>)
    ensures
        texts(r@) == gather(edges@.len() as int, edge_line(edge_views(edges@), module@)),
{
    let ghost es = edge_views(edges@);
    let mut out: Vec<String> = Vec::new();
    let mut i: usize = 0;
    while i < edges.len()
        invariant
            i <= edges.len(),
            es == edge_views(edges@),
            texts(out@) =~= gather(i as int, edge_line(es, module@)),
        decreases edges.len() - i,
    {
        let e = &edges[i];
        assert(es[i as int] == e@);
        assert(texts(e.names@).len() == e.names@.len());
        if same(e.module.as_str(), module) {
            let names = if e.names.len() == 0 {
                "*".to_owned()
            } else {
                join(&e.names, ", ")
            };
            put(
                &mut out,
                cat7(
                    "     ",
                    e.py_file.as_str(),
                    ":",
                    decimal_usize(e.py_line).as_str(),
                    "  imports [",
                    names.as_str(),
                    "]",
                ),
            );
        }
        i += 1;
    }
    out
}

fn list_module(edges: &Vec<FfiEdge>, module: &str) -> (r: Vec<String>)
    ensures
        texts(r@) == seq![
            ""@,
            "  ⟷ "@ + module@ + "  (Rust: "@ + first_home(edge_views(edges@), module@, 0) + ")"@,
        ] + gather(edges@.len() as int, edge_line(edge_views(edges@), module@)),
{
    let mut out: Vec<String> = Vec::new();
    put(&mut out, "".to_owned());
    put(
        &mut out,
        cat5("  ⟷ ", module, "  (Rust: ", find_home(edges, module).as_str(), ")"),
    );
    assert(texts(out@) =~= seq![
        ""@,
        "  ⟷ "@ + module@ + "  (Rust: "@ + first_home(edge_views(edges@), module@, 0) + ")"@,
    ]);
    put_all(&mut out, &list_edges(edges, module));
    out
}

/// The lines on the seam between Rust and Python: how much crosses it, and by module where it is
/// crossed.
pub fn ffi_lines(g: &FfiGraph) -> (r: Vec<String>)
    ensures
        texts(r@) == ffi_lines_of(*g),
{
    let ghost es = edge_views(g.edges@);
    assert(es.len() == g.edges@.len());
    let mut out: Vec<String> = Vec::new();
    let head = cat6(
        "bonsai ffi — ",
        decimal_usize(g.exports.len()).as_str(),
        " PyO3 exports (",
        decimal_usize(count_modules(&g.exports)).as_str(),
        " module(s)), ",
        decimal_usize(g.imports.len()).as_str(),
    );
    put(
        &mut out,
        cat4(
            head.as_str(),
            " Python imports, ",
            decimal_usize(g.edges.len()).as_str(),
            " stitched edge(s)",
        ),
    );
    let modules = list_modules(&g.edges);
    let ghost ms = edge_modules(es);
    assert(ms.len() == modules@.len());
    let ghost first = texts(out@);
    let mut k: usize = 0;
    while k < modules.len()
        invariant
            k <= modules.len(),
            es == edge_views(g.edges@),
            es.len() == g.edges@.len(),
            ms == edge_modules(es),
            ms == texts(modules@),
            texts(out@) =~= first + gather(k as int, module_lines(es)),
        decreases modules.len() - k,
    {
        assert(ms[k as int] == modules@[k as int]@);
        put_all(&mut out, &list_module(&g.edges, modules[k].as_str()));
        k += 1;
    }
    if g.edges.len() == 0 {
        put(
            &mut out,
            "  (no FFI boundary found — no #[pymodule] imported from Python under this root)".to_owned(),
        );
    }
    assert(texts(out@) =~= ffi_lines_of(*g));
    out
}

} // verus!
