//! What the facts of a repository say, and what a question about them finds.
use vstd::prelude::*;

use crate::blueprint::{last_port, Blueprint, Port};
use crate::facts::{
    blueprint_facts, canonical_holds_facts, dependency, flow_fact, followed_upto, graph_facts,
    implementation_facts, leads_to, leads_within, part_name, port_fact, reached, reached_is_led,
    slot_fact, slot_realized, support, support_at, symbol_fact, target_fact, target_facts, FactView,
    ObjectView, Traversal,
};
use crate::order::{canonical, in_order, links, named, row_of, row_unique, value_of, Names};
use crate::scip::{CodeGraph, Sym};
use crate::text::{concat_contains, gather, gather_contains};

verus! {

// ── what a fact says ───────────────────────────────────────────────────────────────────

/// Whether one of the facts says of `subject` this predicate and this entity.
pub open spec fn says(
    fs: Seq<FactView>,
    subject: Seq<char>,
    predicate: Seq<char>,
    entity: Seq<char>,
) -> bool {
    exists|f: FactView| #[trigger]
        fs.contains(f) && f.subject == subject && f.predicate == predicate && f.object
            == ObjectView::Entity(entity)
}

/// Whether one of the facts says that `a` depends on `b`.
pub open spec fn depends(fs: Seq<FactView>, a: Seq<char>, b: Seq<char>) -> bool {
    says(fs, a, "depends-on"@, b)
}

/// A question about dependencies goes from what depends to what it depends on, and one about impact
/// the other way.
pub proof fn questions_follow_dependencies(fs: Seq<FactView>, a: Seq<char>, b: Seq<char>)
    ensures
        leads_to(fs, Traversal::Dependencies, a, b) <==> depends(fs, a, b),
        leads_to(fs, Traversal::Impact, a, b) <==> depends(fs, b, a),
{
    if leads_to(fs, Traversal::Dependencies, a, b) {
        let i = choose|i: int|
            0 <= i < fs.len() && dependency(#[trigger] fs[i], Traversal::Dependencies) == Some((a, b));
        assert(fs.contains(fs[i]));
    }
    if leads_to(fs, Traversal::Impact, a, b) {
        let i = choose|i: int|
            0 <= i < fs.len() && dependency(#[trigger] fs[i], Traversal::Impact) == Some((a, b));
        assert(fs.contains(fs[i]));
    }
    if depends(fs, a, b) {
        let f = choose|f: FactView| #[trigger]
            fs.contains(f) && f.subject == a && f.predicate == "depends-on"@ && f.object
                == ObjectView::Entity(b);
        let i = choose|i: int| 0 <= i < fs.len() && fs[i] == f;
        assert(dependency(fs[i], Traversal::Dependencies) == Some((a, b)));
    }
    if depends(fs, b, a) {
        let f = choose|f: FactView| #[trigger]
            fs.contains(f) && f.subject == b && f.predicate == "depends-on"@ && f.object
                == ObjectView::Entity(a);
        let i = choose|i: int| 0 <= i < fs.len() && fs[i] == f;
        assert(dependency(fs[i], Traversal::Impact) == Some((a, b)));
    }
}

proof fn says_canonical(fs: Seq<FactView>, s: Seq<char>, p: Seq<char>, o: Seq<char>)
    ensures
        says(canonical(fs), s, p, o) <==> says(fs, s, p, o),
{
    let c = canonical(fs);
    if says(c, s, p, o) {
        let f = choose|f: FactView| #[trigger]
            c.contains(f) && f.subject == s && f.predicate == p && f.object == ObjectView::Entity(o);
        canonical_holds_facts(fs, f);
    }
    if says(fs, s, p, o) {
        let f = choose|f: FactView| #[trigger]
            fs.contains(f) && f.subject == s && f.predicate == p && f.object == ObjectView::Entity(o);
        canonical_holds_facts(fs, f);
        assert(c.contains(f));
    }
}

proof fn says_either(
    a: Seq<FactView>,
    b: Seq<FactView>,
    s: Seq<char>,
    p: Seq<char>,
    o: Seq<char>,
)
    ensures
        says(a + b, s, p, o) <==> says(a, s, p, o) || says(b, s, p, o),
{
    if says(a + b, s, p, o) {
        let f = choose|f: FactView| #[trigger]
            (a + b).contains(f) && f.subject == s && f.predicate == p && f.object
                == ObjectView::Entity(o);
        concat_contains(a, b, f);
    }
    if says(a, s, p, o) {
        let f = choose|f: FactView| #[trigger]
            a.contains(f) && f.subject == s && f.predicate == p && f.object == ObjectView::Entity(o);
        concat_contains(a, b, f);
        assert((a + b).contains(f));
    }
    if says(b, s, p, o) {
        let f = choose|f: FactView| #[trigger]
            b.contains(f) && f.subject == s && f.predicate == p && f.object == ObjectView::Entity(o);
        concat_contains(a, b, f);
        assert((a + b).contains(f));
    }
}

proof fn says_gathered(
    n: int,
    g: spec_fn(int) -> Seq<FactView>,
    s: Seq<char>,
    p: Seq<char>,
    o: Seq<char>,
)
    ensures
        says(gather(n, g), s, p, o) <==> exists|i: int|
            0 <= i < n && #[trigger] says(g(i), s, p, o),
{
    let all = gather(n, g);
    if says(all, s, p, o) {
        let f = choose|f: FactView| #[trigger]
            all.contains(f) && f.subject == s && f.predicate == p && f.object
                == ObjectView::Entity(o);
        gather_contains(n, g, f);
        let i = choose|i: int| 0 <= i < n && (#[trigger] g(i)).contains(f);
        assert(says(g(i), s, p, o));
    }
    if exists|i: int| 0 <= i < n && #[trigger] says(g(i), s, p, o) {
        let i = choose|i: int| 0 <= i < n && #[trigger] says(g(i), s, p, o);
        let f = choose|f: FactView| #[trigger]
            g(i).contains(f) && f.subject == s && f.predicate == p && f.object
                == ObjectView::Entity(o);
        gather_contains(n, g, f);
        assert(all.contains(f));
    }
}

proof fn says_one(f: FactView, e: Seq<char>, s: Seq<char>, p: Seq<char>, o: Seq<char>)
    requires
        f.object == ObjectView::Entity(e),
    ensures
        says(seq![f], s, p, o) <==> f.subject == s && f.predicate == p && e == o,
{
    let one = seq![f];
    assert(one[0] == f);
    assert(one.contains(f));
    if says(one, s, p, o) {
        let h = choose|h: FactView| #[trigger]
            one.contains(h) && h.subject == s && h.predicate == p && h.object
                == ObjectView::Entity(o);
        let i = choose|i: int| 0 <= i < one.len() && one[i] == h;
        assert(h == f);
    }
}

// ── facts of a code graph ──────────────────────────────────────────────────────────────

proof fn same_behind(p: Seq<char>, a: Seq<char>, b: Seq<char>)
    requires
        p + a == p + b,
    ensures
        a == b,
{
    assert((p + a).skip(p.len() as int) =~= a);
    assert((p + b).skip(p.len() as int) =~= b);
}

proof fn targets_say(
    prefix: Seq<char>,
    rows: Seq<(Seq<char>, Names)>,
    locator: Seq<char>,
    digest: Seq<char>,
    s: Seq<char>,
    p: Seq<char>,
    o: Seq<char>,
)
    ensures
        says(
            gather(rows.len() as int, target_facts(prefix, rows, locator, digest)),
            s,
            p,
            o,
        ) <==> p == "depends-on"@ && exists|i: int, k: int|
            0 <= i < rows.len() && 0 <= k < rows[i].1@.len() && s == prefix + (#[trigger] rows[i]).0
                && o == prefix + (#[trigger] rows[i].1@[k]).0,
{
    let all = target_facts(prefix, rows, locator, digest);
    says_gathered(rows.len() as int, all, s, p, o);
    assert forall|i: int| 0 <= i < rows.len() implies (#[trigger] says(all(i), s, p, o) <==> p
        == "depends-on"@ && s == prefix + rows[i].0 && exists|k: int|
        0 <= k < rows[i].1@.len() && o == prefix + (#[trigger] rows[i].1@[k]).0) by {
        let one = target_fact(prefix, rows[i].0, rows[i].1@, locator, digest);
        says_gathered(rows[i].1@.len() as int, one, s, p, o);
        assert forall|k: int| 0 <= k < rows[i].1@.len() implies (#[trigger] says(one(k), s, p, o) <==> p
            == "depends-on"@ && s == prefix + rows[i].0 && o == prefix + rows[i].1@[k].0) by {
            says_one(one(k)[0], prefix + rows[i].1@[k].0, s, p, o);
            assert(one(k) =~= seq![one(k)[0]]);
        }
        if p == "depends-on"@ && s == prefix + rows[i].0 && exists|k: int|
            0 <= k < rows[i].1@.len() && o == prefix + (#[trigger] rows[i].1@[k]).0 {
            let k = choose|k: int|
                0 <= k < rows[i].1@.len() && o == prefix + (#[trigger] rows[i].1@[k]).0;
            assert(says(one(k), s, p, o));
        }
        if says(all(i), s, p, o) {
            let k = choose|k: int| 0 <= k < rows[i].1@.len() && #[trigger] says(one(k), s, p, o);
            assert(o == prefix + rows[i].1@[k].0);
        }
    }
    if says(gather(rows.len() as int, all), s, p, o) {
        let i = choose|i: int| 0 <= i < rows.len() && #[trigger] says(all(i), s, p, o);
        let k = choose|k: int|
            0 <= k < rows[i].1@.len() && o == prefix + (#[trigger] rows[i].1@[k]).0;
        assert(s == prefix + rows[i].0 && o == prefix + rows[i].1@[k].0);
    }
    if p == "depends-on"@ && exists|i: int, k: int|
        0 <= i < rows.len() && 0 <= k < rows[i].1@.len() && s == prefix + (#[trigger] rows[i]).0 && o
            == prefix + (#[trigger] rows[i].1@[k]).0 {
        let (i, k) = choose|i: int, k: int|
            0 <= i < rows.len() && 0 <= k < rows[i].1@.len() && s == prefix + (#[trigger] rows[i]).0
                && o == prefix + (#[trigger] rows[i].1@[k]).0;
        assert(o == prefix + rows[i].1@[k].0);
        assert(says(all(i), s, p, o));
    }
}

proof fn targets_link(
    prefix: Seq<char>,
    rows: Seq<(Seq<char>, Names)>,
    locator: Seq<char>,
    digest: Seq<char>,
    a: Seq<char>,
    b: Seq<char>,
)
    requires
        in_order(false, rows),
    ensures
        depends(
            gather(rows.len() as int, target_facts(prefix, rows, locator, digest)),
            prefix + a,
            prefix + b,
        ) <==> links(rows, a, b),
{
    let all = gather(rows.len() as int, target_facts(prefix, rows, locator, digest));
    let s = prefix + a;
    let o = prefix + b;
    targets_say(prefix, rows, locator, digest, s, "depends-on"@, o);
    if depends(all, s, o) {
        let (i, k) = choose|i: int, k: int|
            0 <= i < rows.len() && 0 <= k < rows[i].1@.len() && s == prefix + (#[trigger] rows[i]).0
                && o == prefix + (#[trigger] rows[i].1@[k]).0;
        same_behind(prefix, a, rows[i].0);
        same_behind(prefix, b, rows[i].1@[k].0);
        row_unique(false, rows, i);
        assert(named(rows[i].1@, b));
    }
    if links(rows, a, b) {
        let i = row_of(rows, a)->0;
        assert(0 <= i < rows.len() && rows[i].0 == a);
        let k = choose|k: int| 0 <= k < rows[i].1@.len() && #[trigger] rows[i].1@[k].0 == b;
        assert(s == prefix + rows[i].0 && o == prefix + rows[i].1@[k].0);
    }
}

proof fn prefixes_differ(a: Seq<char>, b: Seq<char>)
    ensures
        "scip:file/"@ + a != "scip:symbol/"@ + b,
{
    reveal_strlit("scip:file/");
    reveal_strlit("scip:symbol/");
    assert(("scip:file/"@ + a)[5] == 'f');
    assert(("scip:symbol/"@ + b)[5] == 's');
}

proof fn symbols_say(
    rows: Seq<(Seq<char>, Sym)>,
    locator: Seq<char>,
    digest: Seq<char>,
    s: Seq<char>,
    p: Seq<char>,
    o: Seq<char>,
)
    ensures
        says(gather(rows.len() as int, symbol_fact(rows, locator, digest)), s, p, o) <==> p
            == "defined-in"@ && exists|i: int|
            0 <= i < rows.len() && s == "scip:symbol/"@ + (#[trigger] rows[i]).0 && o
                == "scip:file/"@ + rows[i].1.file@,
{
    let one = symbol_fact(rows, locator, digest);
    says_gathered(rows.len() as int, one, s, p, o);
    assert forall|i: int| 0 <= i < rows.len() implies (#[trigger] says(one(i), s, p, o) <==> p
        == "defined-in"@ && s == "scip:symbol/"@ + rows[i].0 && o == "scip:file/"@
        + rows[i].1.file@) by {
        says_one(one(i)[0], "scip:file/"@ + rows[i].1@.file, s, p, o);
        assert(one(i) =~= seq![one(i)[0]]);
    }
    if p == "defined-in"@ && exists|i: int|
        0 <= i < rows.len() && s == "scip:symbol/"@ + (#[trigger] rows[i]).0 && o == "scip:file/"@
            + rows[i].1.file@ {
        let i = choose|i: int|
            0 <= i < rows.len() && s == "scip:symbol/"@ + (#[trigger] rows[i]).0 && o
                == "scip:file/"@ + rows[i].1.file@;
        assert(says(one(i), s, p, o));
    }
}

proof fn words_differ()
    ensures
        "depends-on"@ != "defined-in"@,
        "depends-on"@ != "member-of"@,
        "depends-on"@ != "realizes"@,
        "member-of"@ != "realizes"@,
{
    reveal_strlit("depends-on");
    reveal_strlit("defined-in");
    reveal_strlit("member-of");
    reveal_strlit("realizes");
    assert("depends-on"@[2] == 'p' && "defined-in"@[2] == 'f');
    assert("depends-on"@[0] == 'd');
    assert("member-of"@[0] == 'm');
    assert("realizes"@[0] == 'r');
}

/// The facts of a code graph say of two files that one depends on the other exactly where the graph
/// links them, and the same of two symbols; between a file and a symbol there is no dependency.
pub proof fn graph_dependencies_run_as_linked(
    g: CodeGraph,
    locator: Seq<char>,
    digest: Seq<char>,
    a: Seq<char>,
    b: Seq<char>,
)
    requires
        in_order(false, g.refs@),
        in_order(false, g.file_deps@),
    ensures
        depends(
            canonical(graph_facts(g, locator, digest)),
            "scip:file/"@ + a,
            "scip:file/"@ + b,
        ) <==> links(g.file_deps@, a, b),
        depends(
            canonical(graph_facts(g, locator, digest)),
            "scip:symbol/"@ + a,
            "scip:symbol/"@ + b,
        ) <==> links(g.refs@, a, b),
        !depends(
            canonical(graph_facts(g, locator, digest)),
            "scip:symbol/"@ + a,
            "scip:file/"@ + b,
        ),
        !depends(
            canonical(graph_facts(g, locator, digest)),
            "scip:file/"@ + a,
            "scip:symbol/"@ + b,
        ),
{
    let fs = graph_facts(g, locator, digest);
    graph_says(g, locator, digest, "scip:file/"@ + a, "depends-on"@, "scip:file/"@ + b);
    graph_says(g, locator, digest, "scip:symbol/"@ + a, "depends-on"@, "scip:symbol/"@ + b);
    graph_says(g, locator, digest, "scip:symbol/"@ + a, "depends-on"@, "scip:file/"@ + b);
    graph_says(g, locator, digest, "scip:file/"@ + a, "depends-on"@, "scip:symbol/"@ + b);
    words_differ();
    targets_link("scip:file/"@, g.file_deps@, locator, digest, a, b);
    targets_link("scip:symbol/"@, g.refs@, locator, digest, a, b);
    assert forall|x: Seq<char>, y: Seq<char>| "scip:file/"@ + x != "scip:symbol/"@ + y by {
        prefixes_differ(x, y);
    }
    let ss = gather(g.refs@.len() as int, target_facts("scip:symbol/"@, g.refs@, locator, digest));
    let ff = gather(
        g.file_deps@.len() as int,
        target_facts("scip:file/"@, g.file_deps@, locator, digest),
    );
    targets_say(
        "scip:symbol/"@,
        g.refs@,
        locator,
        digest,
        "scip:file/"@ + a,
        "depends-on"@,
        "scip:file/"@ + b,
    );
    targets_say(
        "scip:symbol/"@,
        g.refs@,
        locator,
        digest,
        "scip:file/"@ + a,
        "depends-on"@,
        "scip:symbol/"@ + b,
    );
    targets_say(
        "scip:symbol/"@,
        g.refs@,
        locator,
        digest,
        "scip:symbol/"@ + a,
        "depends-on"@,
        "scip:file/"@ + b,
    );
    targets_say(
        "scip:file/"@,
        g.file_deps@,
        locator,
        digest,
        "scip:symbol/"@ + a,
        "depends-on"@,
        "scip:symbol/"@ + b,
    );
    targets_say(
        "scip:file/"@,
        g.file_deps@,
        locator,
        digest,
        "scip:file/"@ + a,
        "depends-on"@,
        "scip:symbol/"@ + b,
    );
    targets_say(
        "scip:file/"@,
        g.file_deps@,
        locator,
        digest,
        "scip:symbol/"@ + a,
        "depends-on"@,
        "scip:file/"@ + b,
    );
}

proof fn graph_says(
    g: CodeGraph,
    locator: Seq<char>,
    digest: Seq<char>,
    s: Seq<char>,
    p: Seq<char>,
    o: Seq<char>,
)
    ensures
        says(canonical(graph_facts(g, locator, digest)), s, p, o) <==> {
            ||| says(
                gather(g.symbols@.len() as int, symbol_fact(g.symbols@, locator, digest)),
                s,
                p,
                o,
            )
            ||| says(
                gather(
                    g.refs@.len() as int,
                    target_facts("scip:symbol/"@, g.refs@, locator, digest),
                ),
                s,
                p,
                o,
            )
            ||| says(
                gather(
                    g.file_deps@.len() as int,
                    target_facts("scip:file/"@, g.file_deps@, locator, digest),
                ),
                s,
                p,
                o,
            )
        },
        p == "depends-on"@ ==> !says(
            gather(g.symbols@.len() as int, symbol_fact(g.symbols@, locator, digest)),
            s,
            p,
            o,
        ),
{
    let a = gather(g.symbols@.len() as int, symbol_fact(g.symbols@, locator, digest));
    let b = gather(g.refs@.len() as int, target_facts("scip:symbol/"@, g.refs@, locator, digest));
    let c = gather(
        g.file_deps@.len() as int,
        target_facts("scip:file/"@, g.file_deps@, locator, digest),
    );
    says_canonical(a + b + c, s, p, o);
    says_either(a + b, c, s, p, o);
    says_either(a, b, s, p, o);
    symbols_say(g.symbols@, locator, digest, s, p, o);
    words_differ();
}

/// The facts of a code graph say where each symbol is defined, and of nothing else that it is
/// defined anywhere.
pub proof fn graph_symbols_are_placed(
    g: CodeGraph,
    locator: Seq<char>,
    digest: Seq<char>,
    id: Seq<char>,
    file: Seq<char>,
)
    requires
        in_order(false, g.symbols@),
    ensures
        says(
            canonical(graph_facts(g, locator, digest)),
            "scip:symbol/"@ + id,
            "defined-in"@,
            "scip:file/"@ + file,
        ) <==> value_of(g.symbols@, id) is Some && value_of(g.symbols@, id)->0.file@ == file,
{
    let s = "scip:symbol/"@ + id;
    let o = "scip:file/"@ + file;
    let rows = g.symbols@;
    graph_says(g, locator, digest, s, "defined-in"@, o);
    symbols_say(rows, locator, digest, s, "defined-in"@, o);
    targets_say("scip:symbol/"@, g.refs@, locator, digest, s, "defined-in"@, o);
    targets_say("scip:file/"@, g.file_deps@, locator, digest, s, "defined-in"@, o);
    words_differ();
    if says(gather(rows.len() as int, symbol_fact(rows, locator, digest)), s, "defined-in"@, o) {
        let i = choose|i: int|
            0 <= i < rows.len() && s == "scip:symbol/"@ + (#[trigger] rows[i]).0 && o
                == "scip:file/"@ + rows[i].1.file@;
        same_behind("scip:symbol/"@, id, rows[i].0);
        same_behind("scip:file/"@, file, rows[i].1.file@);
        row_unique(false, rows, i);
    }
    if value_of(rows, id) is Some && value_of(rows, id)->0.file@ == file {
        let i = row_of(rows, id)->0;
        assert(rows[i].0 == id);
        assert(s == "scip:symbol/"@ + rows[i].0);
    }
}

// ── facts of a blueprint ───────────────────────────────────────────────────────────────

proof fn last_port_stands(ports: Seq<Port>, id: Seq<char>, n: int)
    requires
        0 <= n <= ports.len(),
    ensures
        match last_port(ports, id, n) {
            Some(p) => exists|i: int|
                0 <= i < n && #[trigger] ports[i] == p && p.id@ == id && forall|j: int|
                    i < j < n ==> (#[trigger] ports[j]).id@ != id,
            None => forall|j: int| 0 <= j < n ==> (#[trigger] ports[j]).id@ != id,
        },
    decreases n,
{
    if n > 0 {
        last_port_stands(ports, id, n - 1);
        if ports[n - 1].id@ == id {
            assert(ports[n - 1] == last_port(ports, id, n)->0);
        } else {
            match last_port(ports, id, n - 1) {
                Some(p) => {
                    let i = choose|i: int|
                        0 <= i < n - 1 && #[trigger] ports[i] == p && p.id@ == id && forall|j: int|
                            i < j < n - 1 ==> (#[trigger] ports[j]).id@ != id;
                    assert(ports[i] == p);
                },
                None => {},
            }
        }
    }
}

/// Whether the port at a position is the one that its id stands for: no later one has it.
pub open spec fn stands_for(ports: Seq<Port>, k: int, id: Seq<char>) -> bool {
    &&& 0 <= k < ports.len()
    &&& ports[k].id@ == id
    &&& forall|j: int| k < j < ports.len() ==> (#[trigger] ports[j]).id@ != id
}

/// Whether a flow of a blueprint leads out of a port of the slot `from` into a port of the slot
/// `to`.
pub open spec fn flows(b: Blueprint, from: Seq<char>, to: Seq<char>) -> bool {
    exists|i: int, k: int, m: int|
        0 <= i < b.flows@.len() && #[trigger] stands_for(b.ports@, k, (#[trigger] b.flows@[i]).from@)
            && #[trigger] stands_for(b.ports@, m, b.flows@[i].to@) && b.ports@[k].slot@ == from
            && b.ports@[m].slot@ == to
}

proof fn port_stands(ports: Seq<Port>, id: Seq<char>, k: int)
    requires
        stands_for(ports, k, id),
    ensures
        last_port(ports, id, ports.len() as int) == Some(ports[k]),
{
    last_port_stands(ports, id, ports.len() as int);
    match last_port(ports, id, ports.len() as int) {
        Some(p) => {
            let i = choose|i: int|
                0 <= i < ports.len() && #[trigger] ports[i] == p && p.id@ == id && forall|j: int|
                    i < j < ports.len() ==> (#[trigger] ports[j]).id@ != id;
            if i < k {
                assert(ports[k].id@ != id);
            } else if k < i {
                assert(ports[i].id@ != id);
            }
        },
        None => {
            assert(ports[k].id@ != id);
        },
    }
}

proof fn port_has_place(ports: Seq<Port>, id: Seq<char>) -> (k: int)
    requires
        last_port(ports, id, ports.len() as int) is Some,
    ensures
        stands_for(ports, k, id),
        last_port(ports, id, ports.len() as int) == Some(ports[k]),
{
    last_port_stands(ports, id, ports.len() as int);
    let p = last_port(ports, id, ports.len() as int)->0;
    choose|i: int|
        0 <= i < ports.len() && #[trigger] ports[i] == p && p.id@ == id && forall|j: int|
            i < j < ports.len() ==> (#[trigger] ports[j]).id@ != id
}

proof fn same_part(b: Blueprint, kind: Seq<char>, x: Seq<char>, y: Seq<char>)
    requires
        part_name(b, kind, x) == part_name(b, kind, y),
    ensures
        x == y,
{
    same_behind(b.meta.id@ + "#"@ + kind + "/"@, x, y);
}

/// The name of a slot in the facts of a blueprint.
pub open spec fn slot_entity(b: Blueprint, slot: Seq<char>) -> Seq<char> {
    b.meta.id@ + "#slot/"@ + slot
}

/// The name of a port in the facts of a blueprint.
pub open spec fn port_entity(b: Blueprint, port: Seq<char>) -> Seq<char> {
    b.meta.id@ + "#port/"@ + port
}

/// The name of an implementation in the facts of a blueprint.
pub open spec fn implementation_entity(b: Blueprint, id: Seq<char>) -> Seq<char> {
    b.meta.id@ + "#implementation/"@ + id
}

proof fn entities_are_parts(b: Blueprint, id: Seq<char>)
    ensures
        slot_entity(b, id) == part_name(b, "slot"@, id),
        port_entity(b, id) == part_name(b, "port"@, id),
        implementation_entity(b, id) == part_name(b, "implementation"@, id),
{
    reveal_strlit("#");
    reveal_strlit("/");
    reveal_strlit("slot");
    reveal_strlit("port");
    reveal_strlit("implementation");
    reveal_strlit("#slot/");
    reveal_strlit("#port/");
    reveal_strlit("#implementation/");
    assert("#slot/"@ =~= "#"@ + "slot"@ + "/"@);
    assert("#port/"@ =~= "#"@ + "port"@ + "/"@);
    assert("#implementation/"@ =~= "#"@ + "implementation"@ + "/"@);
    let m = b.meta.id@;
    assert(m + ("#"@ + "slot"@ + "/"@) + id =~= m + "#"@ + "slot"@ + "/"@ + id);
    assert(m + ("#"@ + "port"@ + "/"@) + id =~= m + "#"@ + "port"@ + "/"@ + id);
    assert(m + ("#"@ + "implementation"@ + "/"@) + id =~= m + "#"@ + "implementation"@ + "/"@ + id);
}

proof fn flows_say(
    b: Blueprint,
    locator: Seq<char>,
    s: Seq<char>,
    p: Seq<char>,
    o: Seq<char>,
)
    ensures
        says(gather(b.flows@.len() as int, flow_fact(b, locator)), s, p, o) <==> p
            == "depends-on"@ && exists|from: Seq<char>, to: Seq<char>| #[trigger]
            flows(b, from, to) && s == part_name(b, "slot"@, to) && o == part_name(
                b,
                "slot"@,
                from,
            ),
{
    let one = flow_fact(b, locator);
    let n = b.flows@.len() as int;
    let ports = b.ports@;
    says_gathered(n, one, s, p, o);
    if says(gather(n, one), s, p, o) {
        let i = choose|i: int| 0 <= i < n && #[trigger] says(one(i), s, p, o);
        match (b.port(b.flows@[i].from@), b.port(b.flows@[i].to@)) {
            (Some(x), Some(y)) => {
                let k = port_has_place(ports, b.flows@[i].from@);
                let m = port_has_place(ports, b.flows@[i].to@);
                says_one(one(i)[0], part_name(b, "slot"@, x.slot@), s, p, o);
                assert(one(i) =~= seq![one(i)[0]]);
                assert(stands_for(ports, k, b.flows@[i].from@));
                assert(stands_for(ports, m, b.flows@[i].to@));
                assert(flows(b, x.slot@, y.slot@));
            },
            _ => {
                assert(one(i) =~= seq![]);
                let f = choose|f: FactView| #[trigger]
                    one(i).contains(f) && f.subject == s && f.predicate == p && f.object
                        == ObjectView::Entity(o);
            },
        }
    }
    if p == "depends-on"@ && exists|from: Seq<char>, to: Seq<char>| #[trigger]
        flows(b, from, to) && s == part_name(b, "slot"@, to) && o == part_name(b, "slot"@, from) {
        let (from, to) = choose|from: Seq<char>, to: Seq<char>| #[trigger]
            flows(b, from, to) && s == part_name(b, "slot"@, to) && o == part_name(
                b,
                "slot"@,
                from,
            );
        let (i, k, m) = choose|i: int, k: int, m: int|
            0 <= i < b.flows@.len() && #[trigger] stands_for(
                b.ports@,
                k,
                (#[trigger] b.flows@[i]).from@,
            ) && #[trigger] stands_for(b.ports@, m, b.flows@[i].to@) && b.ports@[k].slot@ == from
                && b.ports@[m].slot@ == to;
        port_stands(ports, b.flows@[i].from@, k);
        port_stands(ports, b.flows@[i].to@, m);
        says_one(one(i)[0], part_name(b, "slot"@, from), s, p, o);
        assert(one(i) =~= seq![one(i)[0]]);
        assert(says(one(i), s, p, o));
    }
}

proof fn slots_say(b: Blueprint, locator: Seq<char>, s: Seq<char>, p: Seq<char>, o: Seq<char>)
    ensures
        says(gather(b.slots@.len() as int, slot_fact(b, locator)), s, p, o) <==> p == "member-of"@
            && o == b.meta.id@ && exists|i: int|
            0 <= i < b.slots@.len() && s == part_name(b, "slot"@, (#[trigger] b.slots@[i]).id@),
{
    let one = slot_fact(b, locator);
    let n = b.slots@.len() as int;
    says_gathered(n, one, s, p, o);
    assert forall|i: int| 0 <= i < n implies (#[trigger] says(one(i), s, p, o) <==> p == "member-of"@
        && o == b.meta.id@ && s == part_name(b, "slot"@, b.slots@[i].id@)) by {
        says_one(one(i)[0], b.meta.id@, s, p, o);
        assert(one(i) =~= seq![one(i)[0]]);
    }
    if exists|i: int| 0 <= i < n && s == part_name(b, "slot"@, (#[trigger] b.slots@[i]).id@) {
        let i = choose|i: int|
            0 <= i < n && s == part_name(b, "slot"@, (#[trigger] b.slots@[i]).id@);
        assert(says(one(i), s, p, o) <==> p == "member-of"@ && o == b.meta.id@);
    }
}

proof fn ports_say(b: Blueprint, locator: Seq<char>, s: Seq<char>, p: Seq<char>, o: Seq<char>)
    ensures
        says(gather(b.ports@.len() as int, port_fact(b, locator)), s, p, o) <==> p == "member-of"@
            && exists|i: int|
            0 <= i < b.ports@.len() && s == part_name(b, "port"@, (#[trigger] b.ports@[i]).id@) && o
                == part_name(b, "slot"@, b.ports@[i].slot@),
{
    let one = port_fact(b, locator);
    let n = b.ports@.len() as int;
    says_gathered(n, one, s, p, o);
    assert forall|i: int| 0 <= i < n implies (#[trigger] says(one(i), s, p, o) <==> p == "member-of"@
        && s == part_name(b, "port"@, b.ports@[i].id@) && o == part_name(
        b,
        "slot"@,
        b.ports@[i].slot@,
    )) by {
        says_one(one(i)[0], part_name(b, "slot"@, b.ports@[i].slot@), s, p, o);
        assert(one(i) =~= seq![one(i)[0]]);
    }
    if p == "member-of"@ && exists|i: int|
        0 <= i < n && s == part_name(b, "port"@, (#[trigger] b.ports@[i]).id@) && o == part_name(
            b,
            "slot"@,
            b.ports@[i].slot@,
        ) {
        let i = choose|i: int|
            0 <= i < n && s == part_name(b, "port"@, (#[trigger] b.ports@[i]).id@) && o == part_name(
                b,
                "slot"@,
                b.ports@[i].slot@,
            );
        assert(says(one(i), s, p, o));
    }
}

/// Whether an implementation of a blueprint is said to realize a slot.
pub open spec fn realizes(b: Blueprint, id: Seq<char>, slot: Seq<char>) -> bool {
    exists|i: int, k: int|
        0 <= i < b.implementations@.len() && 0 <= k < b.implementations@[i].slots@.len()
            && (#[trigger] b.implementations@[i]).id@ == id && (
        #[trigger] b.implementations@[i].slots@[k])@ == slot
}

proof fn implementations_say(
    b: Blueprint,
    locator: Seq<char>,
    s: Seq<char>,
    p: Seq<char>,
    o: Seq<char>,
)
    ensures
        says(
            gather(b.implementations@.len() as int, implementation_facts(b, locator)),
            s,
            p,
            o,
        ) <==> p == "realizes"@ && exists|id: Seq<char>, slot: Seq<char>| #[trigger]
            realizes(b, id, slot) && s == part_name(b, "implementation"@, id) && o == part_name(
                b,
                "slot"@,
                slot,
            ),
{
    let all = implementation_facts(b, locator);
    let n = b.implementations@.len() as int;
    says_gathered(n, all, s, p, o);
    if says(gather(n, all), s, p, o) {
        let i = choose|i: int| 0 <= i < n && #[trigger] says(all(i), s, p, o);
        let m = b.implementations@[i];
        let one = slot_realized(b, locator, m);
        says_gathered(m.slots@.len() as int, one, s, p, o);
        let k = choose|k: int| 0 <= k < m.slots@.len() && #[trigger] says(one(k), s, p, o);
        says_one(one(k)[0], part_name(b, "slot"@, m.slots@[k]@), s, p, o);
        assert(one(k) =~= seq![one(k)[0]]);
        assert(b.implementations@[i].slots@[k]@ == m.slots@[k]@);
        assert(realizes(b, m.id@, m.slots@[k]@));
    }
    if p == "realizes"@ && exists|id: Seq<char>, slot: Seq<char>| #[trigger]
        realizes(b, id, slot) && s == part_name(b, "implementation"@, id) && o == part_name(
            b,
            "slot"@,
            slot,
        ) {
        let (id, slot) = choose|id: Seq<char>, slot: Seq<char>| #[trigger]
            realizes(b, id, slot) && s == part_name(b, "implementation"@, id) && o == part_name(
                b,
                "slot"@,
                slot,
            );
        let (i, k) = choose|i: int, k: int|
            0 <= i < b.implementations@.len() && 0 <= k < b.implementations@[i].slots@.len()
                && (#[trigger] b.implementations@[i]).id@ == id && (
            #[trigger] b.implementations@[i].slots@[k])@ == slot;
        let m = b.implementations@[i];
        let one = slot_realized(b, locator, m);
        says_one(one(k)[0], part_name(b, "slot"@, slot), s, p, o);
        assert(one(k) =~= seq![one(k)[0]]);
        assert(says(one(k), s, p, o));
        says_gathered(m.slots@.len() as int, one, s, p, o);
        assert(says(all(i), s, p, o));
    }
}

proof fn blueprint_says(b: Blueprint, locator: Seq<char>, s: Seq<char>, p: Seq<char>, o: Seq<char>)
    ensures
        says(canonical(blueprint_facts(b, locator)), s, p, o) <==> {
            ||| says(gather(b.slots@.len() as int, slot_fact(b, locator)), s, p, o)
            ||| says(gather(b.ports@.len() as int, port_fact(b, locator)), s, p, o)
            ||| says(gather(b.flows@.len() as int, flow_fact(b, locator)), s, p, o)
            ||| says(
                gather(b.implementations@.len() as int, implementation_facts(b, locator)),
                s,
                p,
                o,
            )
        },
{
    let x = gather(b.slots@.len() as int, slot_fact(b, locator));
    let y = gather(b.ports@.len() as int, port_fact(b, locator));
    let z = gather(b.flows@.len() as int, flow_fact(b, locator));
    let w = gather(b.implementations@.len() as int, implementation_facts(b, locator));
    says_canonical(x + y + z + w, s, p, o);
    says_either(x + y + z, w, s, p, o);
    says_either(x + y, z, s, p, o);
    says_either(x, y, s, p, o);
}

/// The facts of a blueprint say that a slot depends on another exactly where a flow leads from a
/// port of that other slot into a port of this one.
pub proof fn blueprint_slots_depend_by_flows(
    b: Blueprint,
    locator: Seq<char>,
    x: Seq<char>,
    y: Seq<char>,
)
    ensures
        depends(canonical(blueprint_facts(b, locator)), slot_entity(b, x), slot_entity(b, y))
            <==> flows(b, y, x),
{
    let s = slot_entity(b, x);
    let o = slot_entity(b, y);
    entities_are_parts(b, x);
    entities_are_parts(b, y);
    blueprint_says(b, locator, s, "depends-on"@, o);
    words_differ();
    slots_say(b, locator, s, "depends-on"@, o);
    ports_say(b, locator, s, "depends-on"@, o);
    flows_say(b, locator, s, "depends-on"@, o);
    implementations_say(b, locator, s, "depends-on"@, o);
    if depends(canonical(blueprint_facts(b, locator)), s, o) {
        let (from, to) = choose|from: Seq<char>, to: Seq<char>| #[trigger]
            flows(b, from, to) && s == part_name(b, "slot"@, to) && o == part_name(
                b,
                "slot"@,
                from,
            );
        same_part(b, "slot"@, x, to);
        same_part(b, "slot"@, y, from);
    }
}

/// The facts of a blueprint say that a port belongs to a slot exactly where the port is one of that
/// slot, that its slots belong to it, and that an implementation realizes a slot exactly where it
/// names it.
pub proof fn blueprint_parts_belong(
    b: Blueprint,
    locator: Seq<char>,
    id: Seq<char>,
    slot: Seq<char>,
)
    ensures
        says(
            canonical(blueprint_facts(b, locator)),
            implementation_entity(b, id),
            "realizes"@,
            slot_entity(b, slot),
        ) <==> realizes(b, id, slot),
        (exists|i: int|
            0 <= i < b.ports@.len() && (#[trigger] b.ports@[i]).id@ == id && b.ports@[i].slot@
                == slot) ==> says(
            canonical(blueprint_facts(b, locator)),
            port_entity(b, id),
            "member-of"@,
            slot_entity(b, slot),
        ),
        (exists|i: int| 0 <= i < b.slots@.len() && (#[trigger] b.slots@[i]).id@ == slot) ==> says(
            canonical(blueprint_facts(b, locator)),
            slot_entity(b, slot),
            "member-of"@,
            b.meta.id@,
        ),
{
    entities_are_parts(b, id);
    entities_are_parts(b, slot);
    words_differ();
    let o = slot_entity(b, slot);
    let m = implementation_entity(b, id);
    blueprint_says(b, locator, m, "realizes"@, o);
    slots_say(b, locator, m, "realizes"@, o);
    ports_say(b, locator, m, "realizes"@, o);
    flows_say(b, locator, m, "realizes"@, o);
    implementations_say(b, locator, m, "realizes"@, o);
    if says(canonical(blueprint_facts(b, locator)), m, "realizes"@, o) {
        let (i, k) = choose|i: Seq<char>, k: Seq<char>| #[trigger]
            realizes(b, i, k) && m == part_name(b, "implementation"@, i) && o == part_name(
                b,
                "slot"@,
                k,
            );
        same_part(b, "implementation"@, id, i);
        same_part(b, "slot"@, slot, k);
    }
    let q = port_entity(b, id);
    blueprint_says(b, locator, q, "member-of"@, o);
    ports_say(b, locator, q, "member-of"@, o);
    blueprint_says(b, locator, o, "member-of"@, b.meta.id@);
    slots_say(b, locator, o, "member-of"@, b.meta.id@);
}

// ── what a question finds ──────────────────────────────────────────────────────────────

/// Whether each of several entities leads to the next as a question follows dependencies.
pub open spec fn dependency_chain(fs: Seq<FactView>, t: Traversal, p: Seq<Seq<char>>) -> bool {
    forall|i: int|
        0 <= i < p.len() - 1 ==> match t {
            Traversal::Dependencies => depends(fs, #[trigger] p[i], p[i + 1]),
            Traversal::Impact => depends(fs, p[i + 1], p[i]),
        }
}

/// Whether a chain of at most `n` dependencies leads from one entity to another.
pub open spec fn chained(
    fs: Seq<FactView>,
    t: Traversal,
    a: Seq<char>,
    b: Seq<char>,
    n: int,
) -> bool {
    exists|p: Seq<Seq<char>>| #[trigger]
        dependency_chain(fs, t, p) && 0 < p.len() <= n + 1 && p[0] == a && p.last() == b
}

proof fn chained_is_led(fs: Seq<FactView>, t: Traversal, a: Seq<char>, b: Seq<char>, n: nat)
    ensures
        chained(fs, t, a, b, n as int) <==> leads_within(fs, t, a, b, n),
    decreases n,
{
    if chained(fs, t, a, b, n as int) {
        let p = choose|p: Seq<Seq<char>>| #[trigger]
            dependency_chain(fs, t, p) && 0 < p.len() <= n + 1 && p[0] == a && p.last() == b;
        if p.len() > 1 {
            let q = p.drop_last();
            let m = q.last();
            assert forall|i: int| 0 <= i < q.len() - 1 implies match t {
                Traversal::Dependencies => depends(fs, #[trigger] q[i], q[i + 1]),
                Traversal::Impact => depends(fs, q[i + 1], q[i]),
            } by {
                assert(q[i] == p[i] && q[i + 1] == p[i + 1]);
            }
            assert(dependency_chain(fs, t, q));
            assert(chained(fs, t, a, m, n - 1));
            chained_is_led(fs, t, a, m, (n - 1) as nat);
            let k = p.len() - 2;
            assert(p[k] == m && p[k + 1] == b);
            questions_follow_dependencies(fs, m, b);
            questions_follow_dependencies(fs, b, m);
            assert(leads_to(fs, t, m, b));
        }
    }
    if leads_within(fs, t, a, b, n) {
        if a == b {
            let p = seq![a];
            assert(dependency_chain(fs, t, p));
            assert(p[0] == a && p.last() == b);
        } else {
            let m = choose|m: Seq<char>|
                leads_within(fs, t, a, m, (n - 1) as nat) && #[trigger] leads_to(fs, t, m, b);
            chained_is_led(fs, t, a, m, (n - 1) as nat);
            let q = choose|q: Seq<Seq<char>>| #[trigger]
                dependency_chain(fs, t, q) && 0 < q.len() <= n && q[0] == a && q.last() == m;
            let p = q.push(b);
            questions_follow_dependencies(fs, m, b);
            questions_follow_dependencies(fs, b, m);
            assert forall|i: int| 0 <= i < p.len() - 1 implies match t {
                Traversal::Dependencies => depends(fs, #[trigger] p[i], p[i + 1]),
                Traversal::Impact => depends(fs, p[i + 1], p[i]),
            } by {
                if i < q.len() - 1 {
                    assert(q[i] == p[i] && q[i + 1] == p[i + 1]);
                } else {
                    assert(p[i] == m && p[i + 1] == b);
                }
            }
            assert(dependency_chain(fs, t, p));
            assert(p[0] == a && p.last() == b);
        }
    }
}

/// What a question finds is exactly what a chain of at most its depth leads to, each entity once
/// and the entity itself left out; and the facts that it names are exactly those that lead on from
/// an entity that takes fewer steps.
pub proof fn questions_find_what_chains_reach(
    fs: Seq<FactView>,
    t: Traversal,
    entity: Seq<char>,
    n: nat,
    x: Seq<char>,
    f: FactView,
)
    requires
        n > 0,
    ensures
        reached(fs, t, entity, n).skip(1).contains(x) <==> x != entity && chained(
            fs,
            t,
            entity,
            x,
            n as int,
        ),
        reached(fs, t, entity, n).skip(1).no_duplicates(),
        support(fs, t, followed_upto(fs, t, entity, n)).contains(f) <==> fs.contains(f)
            && f.predicate == "depends-on"@ && f.object is Entity && chained(
            fs,
            t,
            entity,
            match t {
                Traversal::Dependencies => f.subject,
                Traversal::Impact => f.object->Entity_0,
            },
            n - 1,
        ),
{
    let r = reached(fs, t, entity, n);
    reached_is_led(fs, t, entity, n, x);
    chained_is_led(fs, t, entity, x, n);
    let rest = r.skip(1);
    if rest.contains(x) {
        let i = choose|i: int| 0 <= i < rest.len() && rest[i] == x;
        assert(r[i + 1] == x);
        assert(r.contains(x));
        assert(r[0] == entity);
    }
    if x != entity && r.contains(x) {
        let i = choose|i: int| 0 <= i < r.len() && r[i] == x;
        assert(rest[i - 1] == x);
    }
    assert forall|i: int, j: int| 0 <= i < rest.len() && 0 <= j < rest.len() && i != j implies rest[i]
        != rest[j] by {
        assert(rest[i] == r[i + 1] && rest[j] == r[j + 1]);
    }
    let from = followed_upto(fs, t, entity, n);
    let one = support_at(fs, t, from);
    let all = gather(fs.len() as int, one);
    canonical_holds_facts(all, f);
    gather_contains(fs.len() as int, one, f);
    let start = match t {
        Traversal::Dependencies => f.subject,
        Traversal::Impact => f.object->Entity_0,
    };
    reached_is_led(fs, t, entity, (n - 1) as nat, start);
    chained_is_led(fs, t, entity, start, (n - 1) as nat);
    if all.contains(f) {
        let i = choose|i: int| 0 <= i < fs.len() && (#[trigger] one(i)).contains(f);
        let found = one(i);
        let k = choose|k: int| 0 <= k < found.len() && found[k] == f;
        assert(f == fs[i]);
        assert(fs.contains(f));
    }
    if fs.contains(f) && f.predicate == "depends-on"@ && f.object is Entity && from.contains(start) {
        let i = choose|i: int| 0 <= i < fs.len() && fs[i] == f;
        assert(one(i)[0] == f);
        assert(one(i).contains(f));
    }
}

} // verus!
