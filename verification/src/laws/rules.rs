//! What the rules report of a repository, and what is let through all the same.
use vstd::prelude::*;

use crate::config::Rules;
use crate::finding::{FindingView, LocationView, Severity};
use crate::laws::cycles::{depends_in_turn, mutual_files_stand_together};
use crate::laws::lines::{parts_stand_between, piece_at};
use crate::model::{Kind, Node};
use crate::moves::Workspace;
use crate::order::{links, row_of, value_of};
use crate::paths::plain;
use crate::rules::{
    allow_marker, allowed, atoms_upto, bound_findings, cycle_finding, cycle_findings, file_layer,
    glob, graph_findings, growth_finding, growth_findings, judged, layer_above, layer_findings,
    layer_index, layered_at, lets_through, marker_waives, marks, names_rule, own_layer,
    placement_finding, placement_findings, sift, sifted, sifting_partitions, unwaived,
    upward_finding, upward_findings, waived,
};
use crate::scip::{belongs_in, lists_cycles, lists_misplaced, CodeGraph, Misplacement};
use crate::text::{
    at, behind, concat_contains, cut, ends, find, find_from_facts, gather, gather_contains,
    lines_of, parts, starts, trimmed,
};
use crate::tree::{Measure, Tree};

verus! {

// ── the list of what is let through ────────────────────────────────────────────────────

/// Whether one text begins another: its characters come first.
pub open spec fn comes_first(p: Seq<char>, s: Seq<char>) -> bool {
    p.len() <= s.len() && forall|j: int| 0 <= j < p.len() ==> #[trigger] s[j] == p[j]
}

/// Whether one text ends another.
pub open spec fn comes_last(p: Seq<char>, s: Seq<char>) -> bool {
    p.len() <= s.len() && forall|j: int|
        s.len() - p.len() <= j < s.len() ==> #[trigger] s[j] == p[j - (s.len() - p.len())]
}

proof fn first_is_starts(p: Seq<char>, s: Seq<char>)
    ensures
        comes_first(p, s) <==> starts(s, p),
        comes_last(p, s) <==> ends(s, p),
{
    if comes_first(p, s) {
        assert(s.subrange(0, p.len() as int) =~= p);
    }
    if starts(s, p) {
        assert forall|j: int| 0 <= j < p.len() implies #[trigger] s[j] == p[j] by {
            assert(s.subrange(0, p.len() as int)[j] == s[j]);
        }
    }
    let k = s.len() - p.len();
    if comes_last(p, s) {
        assert(s.subrange(k, k + p.len()) =~= p);
    }
    if ends(s, p) {
        assert forall|j: int| k <= j < s.len() implies #[trigger] s[j] == p[j - k] by {
            assert(s.subrange(k, k + p.len())[j - k] == s[j]);
        }
    }
}

/// A pattern names a rule where it is `*`, the rule itself, or the family of it: what comes before
/// one of its hyphens.
pub proof fn patterns_name_rules_and_families(pattern: Seq<char>, rule: Seq<char>)
    ensures
        names_rule(pattern, rule) <==> pattern == seq!['*'] || pattern == rule || (pattern.len()
            < rule.len() && comes_first(pattern, rule) && rule[pattern.len() as int] == '-'),
{
    reveal_strlit("*");
    reveal_strlit("-");
    assert("*"@ =~= seq!['*']);
    let p = pattern + "-"@;
    first_is_starts(p, rule);
    let n = pattern.len() as int;
    if comes_first(p, rule) {
        assert(rule[n] == p[n]);
        assert forall|j: int| 0 <= j < n implies #[trigger] rule[j] == pattern[j] by {
            assert(p[j] == pattern[j]);
        }
    }
    if n < rule.len() && comes_first(pattern, rule) && rule[n] == '-' {
        assert forall|j: int| 0 <= j < p.len() implies #[trigger] rule[j] == p[j] by {
            if j < n {
                assert(p[j] == pattern[j]);
            } else {
                assert(p[n] == '-');
            }
        }
    }
}

/// A pattern that ends with a star matches the paths that begin with what comes before it, one that
/// ends with a slash and two stars those that begin with what comes before the slash, one that only
/// begins with a star those that end with what comes behind it, and any other itself alone.
pub proof fn patterns_match_paths(p: Seq<char>, path: Seq<char>)
    ensures
        p.len() > 2 && comes_last(seq!['/', '*', '*'], p) ==> (glob(p, path) <==> comes_first(
            p.take(p.len() - 3),
            path,
        )),
        p.len() > 2 && p.last() == '*' && !comes_last(seq!['/', '*', '*'], p) ==> (glob(p, path)
            <==> comes_first(p.drop_last(), path)),
        p.len() > 1 && p.last() != '*' && p[0] == '*' ==> (glob(p, path) <==> comes_last(
            p.skip(1),
            path,
        )),
        p.len() > 0 && p.last() != '*' && p[0] != '*' ==> (glob(p, path) <==> p == path),
        p == seq!['*'] || p == seq!['*', '*'] ==> glob(p, path),
{
    reveal_strlit("*");
    reveal_strlit("**");
    reveal_strlit("/**");
    assert("*"@ =~= seq!['*']);
    assert("**"@ =~= seq!['*', '*']);
    assert("/**"@ =~= seq!['/', '*', '*']);
    first_is_starts("/**"@, p);
    first_is_starts("*"@, p);
    let n = p.len() as int;
    if n > 0 {
        assert(comes_last("*"@, p) <==> p.last() == '*');
        assert(comes_first("*"@, p) <==> p[0] == '*');
        first_is_starts(p.take(n - 3), path);
        first_is_starts(p.drop_last(), path);
        first_is_starts(p.skip(1), path);
        assert(p.take(n - 1) =~= p.drop_last());
    }
}

/// An entry without a colon lets through the findings of the rules that it names; one with a colon
/// those of them that are at a path which the pattern behind the first colon matches.
pub proof fn entries_let_through(entry: Seq<char>, f: FindingView, i: int)
    ensures
        (forall|j: int| 0 <= j < entry.len() ==> #[trigger] entry[j] != ':') ==> (lets_through(
            entry,
            f,
        ) <==> names_rule(entry, f.rule)),
        0 <= i < entry.len() && entry[i] == ':' && (forall|j: int|
            0 <= j < i ==> #[trigger] entry[j] != ':') ==> (lets_through(entry, f) <==> names_rule(
            entry.take(i),
            f.rule,
        ) && glob(entry.skip(i + 1), f.location.file)),
{
    reveal_strlit(":");
    find_from_facts(entry, ":"@, 0);
    assert forall|j: int| 0 <= j < entry.len() implies (at(entry, ":"@, j) <==> #[trigger] entry[j]
        == ':') by {
        assert(entry.subrange(j, j + 1)[0] == entry[j]);
        if entry[j] == ':' {
            assert(entry.subrange(j, j + 1) =~= ":"@);
        }
    }
    match find(entry, ":"@) {
        Some(k) => {
            assert(entry[k] == ':');
            if 0 <= i < k && entry[i] == ':' {
                assert(at(entry, ":"@, i));
            }
            if i > k {
                assert(entry[k] == ':');
            }
        },
        None => {
            if 0 <= i < entry.len() && entry[i] == ':' {
                assert(at(entry, ":"@, i));
            }
        },
    }
}

/// A finding stands exactly where no entry lets it through, and the findings that stand come in the
/// order in which they came in.
pub proof fn standing_findings_are_not_allowed(
    fs: Seq<FindingView>,
    allow: Seq<Seq<char>>,
    f: FindingView,
)
    ensures
        sift(fs, allow, false).contains(f) <==> fs.contains(f) && forall|k: int|
            0 <= k < allow.len() ==> !lets_through(#[trigger] allow[k], f),
        sift(fs, allow, true).contains(f) <==> fs.contains(f) && exists|k: int|
            0 <= k < allow.len() && lets_through(#[trigger] allow[k], f),
        fs.len() > 0 ==> sift(fs, allow, false) == sift(fs.drop_last(), allow, false) + (
        if allowed(allow, fs.last()) {
            seq![]
        } else {
            seq![fs.last()]
        }),
{
    sifting_partitions(fs, allow);
    if fs.len() > 0 {
        let n = fs.len() as int;
        let less = fs.drop_last();
        let g = sifted(fs, allow, false);
        let h = sifted(less, allow, false);
        assert forall|i: int| 0 <= i < n - 1 implies #[trigger] g(i) == h(i) by {
            assert(less[i] == fs[i]);
        }
        crate::text::gather_same(n - 1, g, h);
    }
}

// ── waivers in the source ──────────────────────────────────────────────────────────────

/// Whether a word in a marker names a rule: the rule itself, or its family.
pub open spec fn word_names(word: Seq<char>, rule: Seq<char>) -> bool {
    trimmed(word) == rule || (trimmed(word).len() < rule.len() && comes_first(trimmed(word), rule)
        && rule[trimmed(word).len() as int] == '-')
}

/// Whether what stands in the brackets of a marker waives a rule: nothing waives every one, and
/// otherwise one of the words between the commas has to name it.
pub open spec fn brackets_waive(inside: Seq<char>, rule: Seq<char>) -> bool {
    trimmed(inside).len() == 0 || exists|word: Seq<char>, a: int, b: int| #[trigger]
        piece_at(trimmed(inside), ',', word, a, b) && word_names(word, rule)
}

/// Whether a line carries a marker that waives a rule: the first `bonsai:allow` on it is followed by
/// no bracket, or by brackets that close and hold what waives the rule.
pub open spec fn carries_waiver(line: Seq<char>, rule: Seq<char>) -> bool {
    exists|p: int|
        {
            &&& #[trigger] at(line, "bonsai:allow"@, p)
            &&& forall|j: int| 0 <= j < p ==> !#[trigger] at(line, "bonsai:allow"@, j)
            &&& p + 12 == line.len() || line[p + 12] != '(' || exists|q: int|
                {
                    &&& p + 13 <= q < line.len()
                    &&& #[trigger] line[q] == ')'
                    &&& forall|j: int| p + 13 <= j < q ==> #[trigger] line[j] != ')'
                    &&& brackets_waive(line.subrange(p + 13, q), rule)
                }
        }
}

proof fn marks_is_names(word: Seq<char>, rule: Seq<char>)
    ensures
        marks(word, rule) <==> word_names(word, rule),
{
    reveal_strlit("-");
    let t = trimmed(word);
    let p = t + "-"@;
    let n = t.len() as int;
    first_is_starts(p, rule);
    if comes_first(p, rule) {
        assert(rule[n] == p[n]);
        assert forall|j: int| 0 <= j < n implies #[trigger] rule[j] == t[j] by {
            assert(p[j] == t[j]);
        }
    }
    if n < rule.len() && comes_first(t, rule) && rule[n] == '-' {
        assert forall|j: int| 0 <= j < p.len() implies #[trigger] rule[j] == p[j] by {
            if j < n {
                assert(p[j] == t[j]);
            } else {
                assert(p[n] == '-');
            }
        }
    }
}

proof fn waives_is_brackets(inside: Seq<char>, rule: Seq<char>)
    ensures
        marker_waives(inside, rule) <==> brackets_waive(inside, rule),
{
    let s = trimmed(inside);
    if marker_waives(inside, rule) && s.len() > 0 {
        let i = choose|i: int|
            0 <= i < parts(s, ',').len() && marks(#[trigger] parts(s, ',')[i], rule);
        let word = parts(s, ',')[i];
        assert(parts(s, ',').contains(word));
        parts_stand_between(s, ',', word);
        let (a, b) = choose|a: int, b: int| #[trigger] piece_at(s, ',', word, a, b);
        marks_is_names(word, rule);
        assert(piece_at(s, ',', word, a, b) && word_names(word, rule));
    }
    if brackets_waive(inside, rule) && s.len() > 0 {
        let (word, a, b) = choose|word: Seq<char>, a: int, b: int| #[trigger]
            piece_at(s, ',', word, a, b) && word_names(word, rule);
        parts_stand_between(s, ',', word);
        let i = choose|i: int| 0 <= i < parts(s, ',').len() && parts(s, ',')[i] == word;
        marks_is_names(word, rule);
        assert(marks(parts(s, ',')[i], rule));
    }
}

proof fn line_is_carried(line: Seq<char>, rule: Seq<char>)
    ensures
        carries_waiver(line, rule) <==> (match allow_marker(line) {
            Some(m) => marker_waives(m, rule),
            None => false,
        }),
{
    let w = "bonsai:allow"@;
    reveal_strlit("bonsai:allow");
    reveal_strlit("(");
    reveal_strlit(")");
    find_from_facts(line, w, 0);
    assert(trimmed(Seq::<char>::empty()).len() == 0) by {
        crate::text::span_from_bounds(Seq::<char>::empty(), crate::text::Class::White, 0);
        assert(crate::text::trimmed_start(Seq::<char>::empty()).len() == 0);
        crate::text::back_from_bounds(
            crate::text::trimmed_start(Seq::<char>::empty()),
            crate::text::Class::White,
            0,
        );
    }
    match find(line, w) {
        None => {
            if carries_waiver(line, rule) {
                let p = choose|p: int| #[trigger]
                    at(line, w, p) && (forall|j: int| 0 <= j < p ==> !#[trigger] at(line, w, j));
                assert(false);
            }
        },
        Some(p) => {
            let after = line.skip(p + 12);
            assert(cut(line, w) == Some((line.take(p), after)));
            let opened = starts(after, "("@);
            assert(opened <==> p + 12 < line.len() && line[p + 12] == '(') by {
                if p + 12 < line.len() {
                    assert(after[0] == line[p + 12]);
                    assert(after.subrange(0, 1)[0] == after[0]);
                    if line[p + 12] == '(' {
                        assert(after.subrange(0, 1) =~= "("@);
                    }
                }
            }
            assert forall|x: int| #[trigger] at(line, w, x) && (forall|j: int|
                0 <= j < x ==> !#[trigger] at(line, w, j)) implies x == p by {
                if x < p {
                    assert(!at(line, w, x));
                } else if p < x {
                    assert(!at(line, w, p));
                }
            }
            if opened {
                let rest = behind(after, "("@)->0;
                assert(rest =~= line.skip(p + 13));
                find_from_facts(rest, ")"@, 0);
                assert forall|j: int| 0 <= j < rest.len() implies (at(rest, ")"@, j)
                    <==> #[trigger] rest[j] == ')') by {
                    assert(rest.subrange(j, j + 1)[0] == rest[j]);
                    if rest[j] == ')' {
                        assert(rest.subrange(j, j + 1) =~= ")"@);
                    }
                }
                match find(rest, ")"@) {
                    Some(k) => {
                        let q = p + 13 + k;
                        assert(rest[k] == ')');
                        assert(line[q] == ')');
                        let inside = rest.take(k);
                        assert(inside =~= line.subrange(p + 13, q));
                        waives_is_brackets(inside, rule);
                        assert forall|j: int| p + 13 <= j < q implies #[trigger] line[j] != ')' by {
                            assert(rest[j - (p + 13)] == line[j]);
                        }
                        if carries_waiver(line, rule) {
                            let z = choose|z: int|
                                p + 13 <= z < line.len() && #[trigger] line[z] == ')' && (forall|
                                    j: int,
                                | p + 13 <= j < z ==> #[trigger] line[j] != ')') && brackets_waive(
                                    line.subrange(p + 13, z),
                                    rule,
                                );
                            if z < q {
                                assert(line[z] != ')');
                            } else if q < z {
                                assert(line[q] != ')');
                            }
                        }
                        if brackets_waive(inside, rule) {
                            assert(at(line, w, p));
                            assert(line[q] == ')');
                        }
                    },
                    None => {
                        if carries_waiver(line, rule) {
                            let z = choose|z: int|
                                p + 13 <= z < line.len() && #[trigger] line[z] == ')' && (forall|
                                    j: int,
                                | p + 13 <= j < z ==> #[trigger] line[j] != ')') && brackets_waive(
                                    line.subrange(p + 13, z),
                                    rule,
                                );
                            assert(rest[z - (p + 13)] == ')');
                            assert(at(rest, ")"@, z - (p + 13)));
                        }
                    },
                }
            } else {
                assert(at(line, w, p));
                assert(p + 12 == line.len() || line[p + 12] != '(');
                assert(carries_waiver(line, rule));
                assert(allow_marker(line) == Some(Seq::<char>::empty()));
                assert(marker_waives(Seq::empty(), rule));
            }
        },
    }
}

/// A finding at a line is waived exactly where that line, or the one right above it, carries a
/// marker that waives its rule; a finding without a line, or in a file that is not there, is not.
pub proof fn waivers_stand_on_the_line_or_above(ws: Workspace, f: FindingView)
    ensures
        waived(ws, f) <==> f.location.line is Some && value_of(ws.files@, plain(f.location.file))
            is Some && ({
            let n = f.location.line->0;
            let ls = lines_of(value_of(ws.files@, plain(f.location.file))->0@);
            ||| 1 <= n <= ls.len() && carries_waiver(ls[n - 1], f.rule)
            ||| 2 <= n <= ls.len() + 1 && carries_waiver(ls[n - 2], f.rule)
        }),
{
    match (f.location.line, value_of(ws.files@, plain(f.location.file))) {
        (Some(n), Some(text)) => {
            let ls = lines_of(text@);
            if 1 <= n <= ls.len() {
                line_is_carried(ls[n - 1], f.rule);
            }
            if 2 <= n <= ls.len() + 1 {
                line_is_carried(ls[n - 2], f.rule);
            }
        },
        _ => {},
    }
}

/// What stands once the waivers are taken into account is exactly what is not waived.
pub proof fn unwaived_findings_stand(ws: Workspace, fs: Seq<FindingView>, f: FindingView)
    ensures
        gather(fs.len() as int, unwaived(ws, fs)).contains(f) <==> fs.contains(f) && !waived(ws, f),
{
    let one = unwaived(ws, fs);
    gather_contains(fs.len() as int, one, f);
    if gather(fs.len() as int, one).contains(f) {
        let i = choose|i: int| 0 <= i < fs.len() && (#[trigger] one(i)).contains(f);
        let found = one(i);
        let k = choose|k: int| 0 <= k < found.len() && found[k] == f;
        assert(fs[i] == f);
    }
    if fs.contains(f) && !waived(ws, f) {
        let i = choose|i: int| 0 <= i < fs.len() && fs[i] == f;
        assert(one(i)[0] == f);
        assert(one(i).contains(f));
    }
}

// ── what the rules report ──────────────────────────────────────────────────────────────

/// Whether a node names a layer: its facet `layer` is the name of that layer, and of no later one.
pub open spec fn names_layer(t: Tree, layers: Seq<String>, id: Seq<char>, l: int) -> bool {
    &&& 0 <= l < layers.len()
    &&& value_of(t.nodes@, id) is Some
    &&& value_of(value_of(t.nodes@, id)->0.facets@, "layer"@) is Some
    &&& value_of(value_of(t.nodes@, id)->0.facets@, "layer"@)->0@ == layers[l]@
    &&& forall|j: int| l < j < layers.len() ==> (#[trigger] layers[j])@ != layers[l]@
}

/// Whether a file of the tree is in a layer: the first node on the way up from it that names a layer
/// names this one.
pub open spec fn in_layer(t: Tree, layers: Seq<String>, file: Seq<char>, l: int) -> bool {
    &&& exists|i: int|
        0 <= i < t.nodes@.len() && (#[trigger] t.nodes@[i]).1.kind == Kind::Atom
            && t.nodes@[i].1.id@ == file
    &&& exists|k: nat|
        {
            &&& (#[trigger] t.up(file, k)) is Some
            &&& names_layer(t, layers, t.up(file, k)->0, l)
            &&& forall|j: nat, m: int|
                j < k && (#[trigger] t.up(file, j)) is Some ==> !#[trigger] names_layer(
                    t,
                    layers,
                    t.up(file, j)->0,
                    m,
                )
        }
}

proof fn layer_found(layers: Seq<String>, name: Seq<char>, n: int)
    requires
        0 <= n <= layers.len(),
    ensures
        match layer_index(layers, name, n) {
            Some(l) => 0 <= l < n && layers[l]@ == name && forall|j: int|
                l < j < n ==> (#[trigger] layers[j])@ != name,
            None => forall|j: int| 0 <= j < n ==> (#[trigger] layers[j])@ != name,
        },
    decreases n,
{
    if n > 0 {
        layer_found(layers, name, n - 1);
    }
}

proof fn own_is_named(t: Tree, layers: Seq<String>, id: Seq<char>, l: int)
    ensures
        names_layer(t, layers, id, l) <==> own_layer(t, layers, id) == Some(l),
{
    match value_of(t.nodes@, id) {
        Some(n) => match value_of(n.facets@, "layer"@) {
            Some(x) => {
                layer_found(layers, x@, layers.len() as int);
                match layer_index(layers, x@, layers.len() as int) {
                    Some(i) => {
                        if names_layer(t, layers, id, l) {
                            if l < i {
                                assert(layers[i]@ != layers[l]@);
                            } else if i < l {
                                assert(layers[l]@ != x@);
                            }
                        }
                    },
                    None => {},
                }
            },
            None => {},
        },
        None => {},
    }
}

proof fn layer_is_in(t: Tree, layers: Seq<String>, file: Seq<char>, l: int)
    ensures
        in_layer(t, layers, file, l) <==> file_layer(t, layers, file) == Some(l),
{
    if in_layer(t, layers, file, l) {
        let k = choose|k: nat|
            {
                &&& (#[trigger] t.up(file, k)) is Some
                &&& names_layer(t, layers, t.up(file, k)->0, l)
                &&& forall|j: nat, m: int|
                    j < k && (#[trigger] t.up(file, j)) is Some ==> !#[trigger] names_layer(
                        t,
                        layers,
                        t.up(file, j)->0,
                        m,
                    )
            };
        own_is_named(t, layers, t.up(file, k)->0, l);
        assert forall|j: nat| j < k implies (#[trigger] layer_above(t, layers, file, j)) is None by {
            if t.up(file, j) is Some {
                let x = t.up(file, j)->0;
                match own_layer(t, layers, x) {
                    Some(m) => {
                        own_is_named(t, layers, x, m);
                        assert(!names_layer(t, layers, t.up(file, j)->0, m));
                    },
                    None => {},
                }
            }
        }
        assert(layered_at(t, layers, file, k));
        let c = choose|c: nat| #[trigger] layered_at(t, layers, file, c);
        if c < k {
            assert(layer_above(t, layers, file, c) is None);
        } else if k < c {
            assert(layer_above(t, layers, file, k) is None);
        }
    }
    if file_layer(t, layers, file) == Some(l) {
        let k = choose|k: nat| #[trigger] layered_at(t, layers, file, k);
        assert(layer_above(t, layers, file, k) == Some(l));
        own_is_named(t, layers, t.up(file, k)->0, l);
        assert forall|j: nat, m: int| j < k && (#[trigger] t.up(file, j)) is Some implies !#[trigger] names_layer(
            t,
            layers,
            t.up(file, j)->0,
            m,
        ) by {
            assert(layer_above(t, layers, file, j) is None);
            own_is_named(t, layers, t.up(file, j)->0, m);
        }
        assert(t.up(file, k) is Some);
    }
}

/// The children of a node that are files of the tree.
pub open spec fn files_in(t: Tree, n: Node) -> Seq<String> {
    n.children@.filter(|c: String| value_of(t.nodes@, c@) is Some && value_of(t.nodes@, c@)->0.kind
        == Kind::Atom)
}

proof fn atoms_are_files(t: Tree, n: Node, k: int)
    requires
        0 <= k <= n.children@.len(),
    ensures
        atoms_upto(t, n, k) == n.children@.take(k).filter(
            |c: String| value_of(t.nodes@, c@) is Some && value_of(t.nodes@, c@)->0.kind == Kind::Atom,
        ).len(),
    decreases k,
{
    reveal(Seq::filter);
    if k > 0 {
        atoms_are_files(t, n, k - 1);
        assert(n.children@.take(k).drop_last() =~= n.children@.take(k - 1));
        assert(n.children@.take(k).last() == n.children@[k - 1]);
    }
}

proof fn judged_parts(
    fs: Seq<FindingView>,
    t: Tree,
    g: CodeGraph,
    rules: Rules,
) -> (r: (int, Seq<Misplacement>, Seq<Seq<Seq<char>>>))
    requires
        judged(fs, t, Some(&g), rules),
    ensures
        rules.max_depth > 0 ==> t.root_measure(Measure::Depth, r.0),
        lists_misplaced(g.file_deps@, r.1),
        lists_cycles(g.file_deps@, r.2),
        forall|f: FindingView| #[trigger]
            fs.contains(f) <==> {
                ||| growth_findings(t, rules).contains(f)
                ||| bound_findings(t, rules, r.0).contains(f)
                ||| layer_findings(t, g, rules).contains(f)
                ||| placement_findings(rules, r.1).contains(f)
                ||| cycle_findings(rules, r.2).contains(f)
            },
{
    let (depth, ms, cs) = choose|depth: int, ms: Seq<Misplacement>, cs: Seq<Seq<Seq<char>>>|
        #![trigger bound_findings(t, rules, depth), placement_findings(rules, ms), cycle_findings(rules, cs)]
        {
            &&& rules.max_depth > 0 ==> t.root_measure(Measure::Depth, depth)
            &&& lists_misplaced(g.file_deps@, ms)
            &&& lists_cycles(g.file_deps@, cs)
            &&& fs == growth_findings(t, rules) + bound_findings(t, rules, depth) + graph_findings(
                t,
                g,
                rules,
                ms,
                cs,
            )
        };
    let a = growth_findings(t, rules);
    let b = bound_findings(t, rules, depth);
    let c = layer_findings(t, g, rules);
    let d = placement_findings(rules, ms);
    let e = cycle_findings(rules, cs);
    assert forall|f: FindingView| #[trigger] fs.contains(f) <==> {
        ||| a.contains(f)
        ||| b.contains(f)
        ||| c.contains(f)
        ||| d.contains(f)
        ||| e.contains(f)
    } by {
        concat_contains(a + b, c + d + e, f);
        concat_contains(a, b, f);
        concat_contains(c + d, e, f);
        concat_contains(c, d, f);
    }
    (depth, ms, cs)
}

/// A dependency of a file on one in a later layer is reported, as an error at the file that depends,
/// with the file that it depends on beside it.
pub proof fn upward_dependencies_are_reported(
    fs: Seq<FindingView>,
    t: Tree,
    g: CodeGraph,
    rules: Rules,
    from: Seq<char>,
    to: Seq<char>,
    l: int,
    u: int,
)
    requires
        judged(fs, t, Some(&g), rules),
        links(g.file_deps@, from, to),
        in_layer(t, rules.layers@, from, l),
        in_layer(t, rules.layers@, to, u),
        l < u,
    ensures
        exists|f: FindingView| #[trigger]
            fs.contains(f) && f.rule == "conformance-layering"@ && f.severity == Severity::Error
                && f.location.file == from && f.related == seq![
                LocationView { file: to, line: None },
            ],
{
    let layers = rules.layers@;
    layer_is_in(t, layers, from, l);
    layer_is_in(t, layers, to, u);
    let r = judged_parts(fs, t, g, rules);
    let i = row_of(g.file_deps@, from)->0;
    assert(g.file_deps@[i].0 == from);
    let set = g.file_deps@[i].1@;
    let k = choose|k: int| 0 <= k < set.len() && #[trigger] set[k].0 == to;
    let one = upward_finding(t, layers, from, set);
    let f = one(k)[0];
    assert(one(k).contains(f));
    gather_contains(set.len() as int, one, f);
    let all = upward_findings(t, g, layers);
    assert(all(i).contains(f));
    gather_contains(g.file_deps@.len() as int, all, f);
    assert(layer_findings(t, g, rules).contains(f));
    assert(fs.contains(f));
}

/// A directory that holds more files than the ceiling is reported, as an error at that directory.
pub proof fn crowded_directories_are_reported(
    fs: Seq<FindingView>,
    t: Tree,
    g: CodeGraph,
    rules: Rules,
    i: int,
)
    requires
        judged(fs, t, Some(&g), rules),
        rules.max_files_per_dir > 0,
        0 <= i < t.nodes@.len(),
        t.nodes@[i].1.kind == Kind::Composite,
        files_in(t, t.nodes@[i].1).len() > rules.max_files_per_dir,
    ensures
        exists|f: FindingView| #[trigger]
            fs.contains(f) && f.rule == "conformance-size"@ && f.severity == Severity::Error
                && f.location.file == t.nodes@[i].1.id@,
{
    let n = t.nodes@[i].1;
    atoms_are_files(t, n, n.children@.len() as int);
    assert(n.children@.take(n.children@.len() as int) =~= n.children@);
    let r = judged_parts(fs, t, g, rules);
    let one = growth_finding(t, rules.max_files_per_dir);
    let f = one(i)[0];
    assert(one(i).contains(f));
    gather_contains(t.nodes@.len() as int, one, f);
    assert(fs.contains(f));
}

/// Where the rules ask for it, a file that belongs in another directory is reported.
pub proof fn misplaced_files_are_reported(
    fs: Seq<FindingView>,
    t: Tree,
    g: CodeGraph,
    rules: Rules,
    file: Seq<char>,
    dir: Seq<char>,
)
    requires
        judged(fs, t, Some(&g), rules),
        rules.enforce_placement,
        belongs_in(g.file_deps@, file, dir),
    ensures
        exists|f: FindingView| #[trigger]
            fs.contains(f) && f.rule == "conformance-placement"@ && f.severity == Severity::Error
                && f.location.file == file,
{
    let r = judged_parts(fs, t, g, rules);
    let ms = r.1;
    let i = choose|i: int| 0 <= i < ms.len() && (#[trigger] ms[i]).file@ == file;
    let one = placement_finding(ms);
    let f = one(i)[0];
    assert(one(i).contains(f));
    gather_contains(ms.len() as int, one, f);
    assert(fs.contains(f));
}

/// Nothing else is reported: a directory only where it holds too many files, a dependency only where
/// it leads to a later layer, and nothing of a kind that the rules do not ask for.
pub proof fn rule_reports_are_broken_rules(
    fs: Seq<FindingView>,
    t: Tree,
    g: CodeGraph,
    rules: Rules,
    f: FindingView,
)
    requires
        judged(fs, t, Some(&g), rules),
        fs.contains(f),
    ensures
        f.severity == Severity::Error,
        ({
            ||| f.rule == "conformance-size"@ && rules.max_files_per_dir > 0 && exists|i: int|
                0 <= i < t.nodes@.len() && f.location.file == (#[trigger] t.nodes@[i]).1.id@ && files_in(
                    t,
                    t.nodes@[i].1,
                ).len() > rules.max_files_per_dir
            ||| f.rule == "conformance-layering"@ && exists|i: int, k: int, l: int, u: int|
                0 <= i < g.file_deps@.len() && 0 <= k < g.file_deps@[i].1@.len() && l < u
                    && #[trigger] in_layer(t, rules.layers@, g.file_deps@[i].0, l)
                    && #[trigger] in_layer(t, rules.layers@, g.file_deps@[i].1@[k].0, u)
                    && f.location.file == g.file_deps@[i].0
            ||| f.rule == "abstraction-layers"@ && 0 < rules.max_layers < rules.layers@.len()
            ||| f.rule == "abstraction-depth"@ && rules.max_depth > 0 && exists|d: int| #[trigger]
                t.root_measure(Measure::Depth, d) && d > rules.max_depth
            ||| f.rule == "conformance-placement"@ && rules.enforce_placement && exists|
                dir: Seq<char>,
            | #[trigger] belongs_in(g.file_deps@, f.location.file, dir)
            ||| f.rule == "structure-cycle"@ && rules.forbid_cycles
        }),
{
    let r = judged_parts(fs, t, g, rules);
    if growth_findings(t, rules).contains(f) {
        let one = growth_finding(t, rules.max_files_per_dir);
        gather_contains(t.nodes@.len() as int, one, f);
        let i = choose|i: int| 0 <= i < t.nodes@.len() && (#[trigger] one(i)).contains(f);
        let found = one(i);
        let k = choose|k: int| 0 <= k < found.len() && found[k] == f;
        let n = t.nodes@[i].1;
        atoms_are_files(t, n, n.children@.len() as int);
        assert(n.children@.take(n.children@.len() as int) =~= n.children@);
        assert(f.location.file == t.nodes@[i].1.id@);
    } else if layer_findings(t, g, rules).contains(f) {
        let layers = rules.layers@;
        let all = upward_findings(t, g, layers);
        gather_contains(g.file_deps@.len() as int, all, f);
        let i = choose|i: int| 0 <= i < g.file_deps@.len() && (#[trigger] all(i)).contains(f);
        let from = g.file_deps@[i].0;
        let set = g.file_deps@[i].1@;
        let one = upward_finding(t, layers, from, set);
        gather_contains(set.len() as int, one, f);
        let k = choose|k: int| 0 <= k < set.len() && (#[trigger] one(k)).contains(f);
        let found = one(k);
        let m = choose|m: int| 0 <= m < found.len() && found[m] == f;
        let l = file_layer(t, layers, from)->0;
        let u = file_layer(t, layers, set[k].0)->0;
        layer_is_in(t, layers, from, l);
        layer_is_in(t, layers, set[k].0, u);
        assert(in_layer(t, rules.layers@, g.file_deps@[i].0, l));
        assert(in_layer(t, rules.layers@, g.file_deps@[i].1@[k].0, u));
    } else if placement_findings(rules, r.1).contains(f) {
        let ms = r.1;
        let one = placement_finding(ms);
        gather_contains(ms.len() as int, one, f);
        let i = choose|i: int| 0 <= i < ms.len() && (#[trigger] one(i)).contains(f);
        let found = one(i);
        let k = choose|k: int| 0 <= k < found.len() && found[k] == f;
        assert(crate::scip::misplaced(g.file_deps@, ms[i]));
        assert(belongs_in(g.file_deps@, f.location.file, ms[i].suggested_dir@));
    } else if cycle_findings(rules, r.2).contains(f) {
        let cs = r.2;
        let one = cycle_finding(cs);
        gather_contains(cs.len() as int, one, f);
        let i = choose|i: int| 0 <= i < cs.len() && (#[trigger] one(i)).contains(f);
        let found = one(i);
        let k = choose|k: int| 0 <= k < found.len() && found[k] == f;
    } else {
        let b = bound_findings(t, rules, r.0);
        let k = choose|k: int| 0 <= k < b.len() && b[k] == f;
    }
}

proof fn bounds_said(t: Tree, rules: Rules, depth: int)
    ensures
        0 < rules.max_layers < rules.layers@.len() ==> exists|f: FindingView| #[trigger]
            bound_findings(t, rules, depth).contains(f) && f.rule == "abstraction-layers"@,
        0 < rules.max_depth < depth ==> exists|f: FindingView| #[trigger]
            bound_findings(t, rules, depth).contains(f) && f.rule == "abstraction-depth"@
                && f.location.file == t.root@,
{
    let b = bound_findings(t, rules, depth);
    if 0 < rules.max_layers < rules.layers@.len() {
        assert(b.contains(b[0]));
        assert(b[0].rule == "abstraction-layers"@);
    }
    if 0 < rules.max_depth < depth {
        let k = b.len() - 1;
        assert(b.contains(b[k]));
        assert(b[k].rule == "abstraction-depth"@);
    }
}

/// More layers than the ceiling are reported, and so is a tree that nests deeper than the ceiling.
pub proof fn exceeded_bounds_are_reported(
    fs: Seq<FindingView>,
    t: Tree,
    g: CodeGraph,
    rules: Rules,
)
    requires
        judged(fs, t, Some(&g), rules),
    ensures
        0 < rules.max_layers < rules.layers@.len() ==> exists|f: FindingView| #[trigger]
            fs.contains(f) && f.rule == "abstraction-layers"@,
        rules.max_depth > 0 && (forall|d: int| #[trigger]
            t.root_measure(Measure::Depth, d) ==> d > rules.max_depth) ==> exists|f: FindingView| #[trigger]
            fs.contains(f) && f.rule == "abstraction-depth"@ && f.location.file == t.root@,
{
    let r = judged_parts(fs, t, g, rules);
    let b = bound_findings(t, rules, r.0);
    bounds_said(t, rules, r.0);
    if 0 < rules.max_layers < rules.layers@.len() {
        let f = choose|f: FindingView| #[trigger] b.contains(f) && f.rule == "abstraction-layers"@;
        assert(fs.contains(f));
    }
    if rules.max_depth > 0 && (forall|d: int| #[trigger]
        t.root_measure(Measure::Depth, d) ==> d > rules.max_depth) {
        assert(t.root_measure(Measure::Depth, r.0));
        let f = choose|f: FindingView| #[trigger]
            b.contains(f) && f.rule == "abstraction-depth"@ && f.location.file == t.root@;
        assert(fs.contains(f));
    }
}

/// Where the rules forbid it, files that depend on each other, directly or in turn, are reported.
pub proof fn cycles_are_reported(
    fs: Seq<FindingView>,
    t: Tree,
    g: CodeGraph,
    rules: Rules,
    a: Seq<char>,
    b: Seq<char>,
)
    requires
        judged(fs, t, Some(&g), rules),
        rules.forbid_cycles,
        a != b,
        depends_in_turn(g.file_deps@, a, b),
        depends_in_turn(g.file_deps@, b, a),
    ensures
        exists|f: FindingView| #[trigger]
            fs.contains(f) && f.rule == "structure-cycle"@ && f.severity == Severity::Error,
{
    let r = judged_parts(fs, t, g, rules);
    let cs = r.2;
    mutual_files_stand_together(g.file_deps@, cs, a, b);
    let k = choose|k: int| 0 <= k < cs.len() && (#[trigger] cs[k]).contains(a) && cs[k].contains(b);
    let one = cycle_finding(cs);
    let f = one(k)[0];
    assert(one(k).contains(f));
    gather_contains(cs.len() as int, one, f);
    assert(fs.contains(f));
}

} // verus!
