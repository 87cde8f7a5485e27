//! What the contracts of a repository ask of its files.
use vstd::prelude::*;

use crate::config::Contract;
use crate::contracts::{
    anchor_findings, anchored_elsewhere, behind_generics, behind_name, closed_from,
    contract_findings, declared_part, defined_somewhere, defines_on, defines_type,
    forbidden_finding, hit_from, implemented_for, implements, implements_on, implements_one,
    level_findings, names_behind, public_type, public_type_at, public_types, seal_findings,
    word_from,
};
use crate::finding::{FindingView, Severity};
use crate::laws::lines::{at_behind, begins, begins_is_starts, blank_upto, blanks_end};
use crate::moves::{without_pub, without_qualifier, Workspace};
use crate::paths::components_of;
use crate::text::{
    at, behind, concat_contains, gather, gather_contains, in_class, lead, lines_of, occurs,
    span_from, span_from_bounds, starts, trimmed_start, white, Class,
};

verus! {

// ── what is reported ───────────────────────────────────────────────────────────────────

/// Whether a file lies under the path of a contract: its path begins with the components of that
/// path.
pub open spec fn lies_under(rel: Seq<char>, path: Seq<char>) -> bool {
    let r = components_of(rel);
    let p = components_of(path);
    p.len() <= r.len() && forall|j: int| 0 <= j < p.len() ==> #[trigger] r[j] == p[j]
}

/// Whether a file of a workspace does not give what a contract asks of it: it lies under the path,
/// is of the kind that the contract speaks of, every file being so where the contract names no
/// kind, and neither implements the trait nor has a public type for which another file under the
/// path does.
pub open spec fn unanchored(ws: Workspace, c: Contract, i: int) -> bool {
    &&& 0 <= i < ws.files@.len()
    &&& c.must_impl is Some
    &&& lies_under(ws.files@[i].0, c.path@)
    &&& c.when_defines is None || occurs(ws.files@[i].1@, c.when_defines->0@)
    &&& forall|l: int|
        0 <= l < lines_of(ws.files@[i].1@).len() ==> !implements_on(
            #[trigger] lines_of(ws.files@[i].1@)[l],
            c.must_impl->0@,
        )
    &&& forall|j: int, l: int|
        0 <= j < ws.files@.len() && lies_under((#[trigger] ws.files@[j]).0, c.path@) && 0 <= l
            < lines_of(ws.files@[j].1@).len() ==> match implemented_for(
            #[trigger] lines_of(ws.files@[j].1@)[l],
            c.must_impl->0@,
        ) {
            Some(t) => !has_public_type(ws.files@[i].1@, t),
            None => true,
        }
}

/// Whether a line of a text defines a public type with a name.
pub open spec fn has_public_type(text: Seq<char>, name: Seq<char>) -> bool {
    name.len() > 0 && exists|l: int|
        0 <= l < lines_of(text).len() && public_type(#[trigger] lines_of(text)[l]) == Some(name)
}

/// Whether a line is the first of a text that holds a pattern.
pub open spec fn first_holds(text: Seq<char>, pat: Seq<char>, l: int) -> bool {
    &&& 0 <= l < lines_of(text).len()
    &&& occurs(lines_of(text)[l], pat)
    &&& forall|m: int| 0 <= m < l ==> !occurs(#[trigger] lines_of(text)[m], pat)
}

/// Everything that the contracts report of a workspace.
pub open spec fn reported(ws: Workspace, cs: Seq<Contract>) -> Seq<FindingView> {
    gather(cs.len() as int, contract_findings(ws, cs))
}

proof fn lies_under_is_in(rel: Seq<char>, path: Seq<char>)
    ensures
        lies_under(rel, path) <==> crate::walk::lies_in(rel, path),
{
    let r = components_of(rel);
    let p = components_of(path);
    if lies_under(rel, path) {
        assert(p =~= r.subrange(0, p.len() as int));
    }
    if p.is_prefix_of(r) {
        assert forall|j: int| 0 <= j < p.len() implies #[trigger] r[j] == p[j] by {
            assert(r.subrange(0, p.len() as int)[j] == r[j]);
        }
    }
}

proof fn public_types_hold(text: Seq<char>, name: Seq<char>)
    ensures
        public_types(text).contains(name) <==> has_public_type(text, name),
{
    let ls = lines_of(text);
    let one = public_type_at(ls);
    gather_contains(ls.len() as int, one, name);
    if public_types(text).contains(name) {
        let i = choose|i: int| 0 <= i < ls.len() && (#[trigger] one(i)).contains(name);
        let found = one(i);
        let k = choose|k: int| 0 <= k < found.len() && found[k] == name;
        assert(public_type(ls[i]) == Some(name));
    }
    if has_public_type(text, name) {
        let l = choose|l: int|
            0 <= l < ls.len() && public_type(#[trigger] ls[l]) == Some(name);
        assert(one(l)[0] == name);
        assert(one(l).contains(name));
    }
}

proof fn anchors_asked(ws: Workspace, c: Contract, i: int)
    requires
        0 <= i < ws.files@.len(),
        lies_under(ws.files@[i].0, c.path@),
    ensures
        unanchored(ws, c, i) <==> anchor_findings(ws, c, ws.files@[i].0, ws.files@[i].1@).len() > 0,
{
    let text = ws.files@[i].1@;
    if c.must_impl is Some {
        let tr = c.must_impl->0@;
        let ts = public_types(text);
        assert(anchored_elsewhere(ws, c, tr, ts) <==> !(forall|j: int, l: int|
            0 <= j < ws.files@.len() && lies_under((#[trigger] ws.files@[j]).0, c.path@) && 0 <= l
                < lines_of(ws.files@[j].1@).len() ==> match implemented_for(
                #[trigger] lines_of(ws.files@[j].1@)[l],
                tr,
            ) {
                Some(t) => !has_public_type(text, t),
                None => true,
            })) by {
            if anchored_elsewhere(ws, c, tr, ts) {
                let j = choose|j: int|
                    0 <= j < ws.files@.len() && crate::walk::lies_in(
                        (#[trigger] ws.files@[j]).0,
                        c.path@,
                    ) && implements_one(ws.files@[j].1@, tr, ts);
                lies_under_is_in(ws.files@[j].0, c.path@);
                let l = choose|l: int|
                    0 <= l < lines_of(ws.files@[j].1@).len() && (match implemented_for(
                        #[trigger] lines_of(ws.files@[j].1@)[l],
                        tr,
                    ) {
                        Some(t) => ts.contains(t),
                        None => false,
                    });
                public_types_hold(text, implemented_for(lines_of(ws.files@[j].1@)[l], tr)->0);
            } else {
                assert forall|j: int, l: int|
                    0 <= j < ws.files@.len() && lies_under((#[trigger] ws.files@[j]).0, c.path@) && 0
                        <= l < lines_of(ws.files@[j].1@).len() implies match implemented_for(
                    #[trigger] lines_of(ws.files@[j].1@)[l],
                    tr,
                ) {
                    Some(t) => !has_public_type(text, t),
                    None => true,
                } by {
                    lies_under_is_in(ws.files@[j].0, c.path@);
                    match implemented_for(lines_of(ws.files@[j].1@)[l], tr) {
                        Some(t) => {
                            public_types_hold(text, t);
                            if has_public_type(text, t) {
                                assert(implements_one(ws.files@[j].1@, tr, ts));
                            }
                        },
                        None => {},
                    }
                }
            }
        }
    }
}

proof fn reported_at(ws: Workspace, cs: Seq<Contract>, k: int, i: int, f: FindingView)
    requires
        0 <= k < cs.len(),
        0 <= i < ws.files@.len(),
        lies_under(ws.files@[i].0, cs[k].path@),
        anchor_findings(ws, cs[k], ws.files@[i].0, ws.files@[i].1@).contains(f) || gather(
            cs[k].forbid@.len() as int,
            forbidden_finding(cs[k], ws.files@[i].0, ws.files@[i].1@),
        ).contains(f),
    ensures
        reported(ws, cs).contains(f),
{
    let c = cs[k];
    let rel = ws.files@[i].0;
    let text = ws.files@[i].1@;
    lies_under_is_in(rel, c.path@);
    let a = anchor_findings(ws, c, rel, text);
    let b = gather(c.forbid@.len() as int, forbidden_finding(c, rel, text));
    concat_contains(a, b, f);
    let one = level_findings(ws, c);
    assert(one(i) == a + b);
    gather_contains(ws.files@.len() as int, one, f);
    let all = contract_findings(ws, cs);
    concat_contains(gather(ws.files@.len() as int, one), seal_findings(ws, c), f);
    assert(all(k).contains(f));
    gather_contains(cs.len() as int, all, f);
}

/// A file that does not give what a contract asks of it is reported, as an error at that file.
pub proof fn unanchored_is_reported(ws: Workspace, cs: Seq<Contract>, k: int, i: int)
    requires
        0 <= k < cs.len(),
        unanchored(ws, cs[k], i),
    ensures
        exists|f: FindingView| #[trigger]
            reported(ws, cs).contains(f) && f.rule == "contract-anchor"@ && f.severity
                == Severity::Error && f.location.file == ws.files@[i].0 && f.location.line is None,
{
    anchors_asked(ws, cs[k], i);
    let a = anchor_findings(ws, cs[k], ws.files@[i].0, ws.files@[i].1@);
    let f = a[0];
    assert(a.contains(f));
    reported_at(ws, cs, k, i, f);
}

/// Where a forbidden text stands in a file under the path of a contract, the first line that holds
/// it is reported, as an error at that line.
pub proof fn forbidden_is_reported(ws: Workspace, cs: Seq<Contract>, k: int, i: int, q: int, l: int)
    requires
        0 <= k < cs.len(),
        0 <= i < ws.files@.len(),
        lies_under(ws.files@[i].0, cs[k].path@),
        0 <= q < cs[k].forbid@.len(),
        first_holds(ws.files@[i].1@, cs[k].forbid@[q]@, l),
        l < u32::MAX,
    ensures
        exists|f: FindingView| #[trigger]
            reported(ws, cs).contains(f) && f.rule == "contract-forbid"@ && f.severity
                == Severity::Error && f.location.file == ws.files@[i].0 && f.location.line is Some
                && f.location.line->0 == l + 1,
{
    let c = cs[k];
    let rel = ws.files@[i].0;
    let text = ws.files@[i].1@;
    let one = forbidden_finding(c, rel, text);
    first_hit(lines_of(text), c.forbid@[q]@, 0, l);
    let f = one(q)[0];
    assert(one(q).contains(f));
    gather_contains(c.forbid@.len() as int, one, f);
    reported_at(ws, cs, k, i, f);
}

proof fn first_hit(ls: Seq<Seq<char>>, pat: Seq<char>, i: int, l: int)
    requires
        0 <= i <= l < ls.len(),
        occurs(ls[l], pat),
        forall|m: int| i <= m < l ==> !occurs(#[trigger] ls[m], pat),
    ensures
        hit_from(ls, pat, i) == Some(l),
    decreases l - i,
{
    if i < l {
        assert(!occurs(ls[i], pat));
        first_hit(ls, pat, i + 1, l);
    }
}

proof fn hit_is_first(ls: Seq<Seq<char>>, pat: Seq<char>, i: int)
    requires
        0 <= i,
        hit_from(ls, pat, i) is Some,
    ensures
        i <= hit_from(ls, pat, i)->0 < ls.len(),
        occurs(ls[hit_from(ls, pat, i)->0], pat),
        forall|m: int| i <= m < hit_from(ls, pat, i)->0 ==> !occurs(#[trigger] ls[m], pat),
    decreases ls.len() - i,
{
    if i < ls.len() && !occurs(ls[i], pat) {
        hit_is_first(ls, pat, i + 1);
    }
}

/// The loss of a sealed abstraction is reported: no line of any file defines its name any more.
pub proof fn lost_seal_is_reported(ws: Workspace, cs: Seq<Contract>, k: int)
    requires
        0 <= k < cs.len(),
        cs[k].sealed is Some,
        forall|i: int, l: int|
            0 <= i < ws.files@.len() && 0 <= l < lines_of(ws.files@[i].1@).len() ==> !defines_on(
                #[trigger] lines_of(ws.files@[i].1@)[l],
                cs[k].sealed->0@,
            ),
    ensures
        exists|f: FindingView| #[trigger]
            reported(ws, cs).contains(f) && f.rule == "contract-seal"@ && f.severity
                == Severity::Error && f.location.file == cs[k].path@,
{
    let c = cs[k];
    let s = seal_findings(ws, c);
    assert(!defined_somewhere(ws, c.sealed->0@)) by {
        assert forall|i: int| 0 <= i < ws.files@.len() implies !defines_type(
            (#[trigger] ws.files@[i]).1@,
            c.sealed->0@,
        ) by {}
    }
    assert(s.len() == 1);
    let f = s[0];
    assert(s.contains(f));
    concat_contains(gather(ws.files@.len() as int, level_findings(ws, c)), s, f);
    let all = contract_findings(ws, cs);
    assert(all(k).contains(f));
    gather_contains(cs.len() as int, all, f);
    assert(reported(ws, cs).contains(f));
}

/// Nothing else is reported: each finding is that of a file which does not give what a contract
/// asks of it, of a first line that holds what a contract forbids there, or of a sealed abstraction
/// that no line defines.
pub proof fn reports_are_broken_contracts(ws: Workspace, cs: Seq<Contract>, f: FindingView)
    requires
        reported(ws, cs).contains(f),
    ensures
        f.severity == Severity::Error,
        ({
            ||| f.rule == "contract-anchor"@ && exists|k: int, i: int|
                0 <= k < cs.len() && #[trigger] unanchored(ws, #[trigger] cs[k], i)
                    && f.location.file == ws.files@[i].0
            ||| f.rule == "contract-forbid"@ && exists|k: int, i: int, q: int, l: int|
                0 <= k < cs.len() && 0 <= i < ws.files@.len() && #[trigger] lies_under(
                    ws.files@[i].0,
                    cs[k].path@,
                ) && 0 <= q < cs[k].forbid@.len() && #[trigger] first_holds(
                    ws.files@[i].1@,
                    cs[k].forbid@[q]@,
                    l,
                ) && f.location.file == ws.files@[i].0 && f.location.line == Some((l + 1) as u32)
            ||| f.rule == "contract-seal"@ && exists|k: int|
                0 <= k < cs.len() && (#[trigger] cs[k]).sealed is Some && !defined_somewhere(
                    ws,
                    cs[k].sealed->0@,
                )
        }),
{
    let all = contract_findings(ws, cs);
    gather_contains(cs.len() as int, all, f);
    let k = choose|k: int| 0 <= k < cs.len() && (#[trigger] all(k)).contains(f);
    let c = cs[k];
    let one = level_findings(ws, c);
    let n = ws.files@.len() as int;
    concat_contains(gather(n, one), seal_findings(ws, c), f);
    if seal_findings(ws, c).contains(f) {
        let s = seal_findings(ws, c);
        let m = choose|m: int| 0 <= m < s.len() && s[m] == f;
        assert(cs[k].sealed is Some);
    } else {
        gather_contains(n, one, f);
        let i = choose|i: int| 0 <= i < n && (#[trigger] one(i)).contains(f);
        let rel = ws.files@[i].0;
        let text = ws.files@[i].1@;
        lies_under_is_in(rel, c.path@);
        let a = anchor_findings(ws, c, rel, text);
        let b = gather(c.forbid@.len() as int, forbidden_finding(c, rel, text));
        concat_contains(a, b, f);
        if a.contains(f) {
            let m = choose|m: int| 0 <= m < a.len() && a[m] == f;
            anchors_asked(ws, c, i);
            assert(unanchored(ws, cs[k], i));
        } else {
            let each = forbidden_finding(c, rel, text);
            gather_contains(c.forbid@.len() as int, each, f);
            let q = choose|q: int| 0 <= q < c.forbid@.len() && (#[trigger] each(q)).contains(f);
            let found = each(q);
            let m = choose|m: int| 0 <= m < found.len() && found[m] == f;
            hit_is_first(lines_of(text), c.forbid@[q]@, 0);
            let l = hit_from(lines_of(text), c.forbid@[q]@, 0)->0;
            assert(first_holds(ws.files@[i].1@, cs[k].forbid@[q]@, l));
            assert(lies_under(ws.files@[i].0, cs[k].path@));
        }
    }
}

// ── what a line says ───────────────────────────────────────────────────────────────────

/// Whether a character may stand in a name: a letter, a digit or the underscore.
pub open spec fn in_name(c: char) -> bool {
    crate::text::alphanumeric(c) || c == '_'
}

/// Whether a text stands at a position and is no beginning of a longer name.
pub open spec fn name_ends(s: Seq<char>, p: Seq<char>, i: int) -> bool {
    at(s, p, i) && (i + p.len() < s.len() ==> !in_name(s[i + p.len()]))
}

/// Whether one text is the end of another from position `m` on.
spec fn tail_of(t: Seq<char>, s: Seq<char>, m: int) -> bool {
    0 <= m <= s.len() && t == s.skip(m)
}

proof fn tail_trimmed(t: Seq<char>, s: Seq<char>, m: int) -> (n: int)
    requires
        tail_of(t, s, m),
    ensures
        m <= n,
        tail_of(trimmed_start(t), s, n),
{
    blanks_end(t);
    let w = span_from(t, Class::White, 0);
    assert(trimmed_start(t) =~= s.skip(m + w));
    m + w
}

proof fn tail_behind(t: Seq<char>, s: Seq<char>, m: int, p: Seq<char>)
    requires
        tail_of(t, s, m),
        behind(t, p) is Some,
    ensures
        at(s, p, m),
        tail_of(behind(t, p)->0, s, m + p.len()),
{
    at_behind(s, p, m, 0);
    assert(behind(t, p)->0 =~= s.skip(m + p.len()));
}

proof fn closed_bounds(t: Seq<char>, i: int, depth: usize)
    requires
        0 <= i,
    ensures
        match closed_from(t, i, depth) {
            Some(j) => i < j <= t.len(),
            None => true,
        },
    decreases t.len() - i,
{
    if i < t.len() {
        if t[i] == '<' {
            if depth < usize::MAX {
                closed_bounds(t, i + 1, (depth + 1) as usize);
            }
        } else if t[i] == '>' && !(i > 0 && t[i - 1] == '-') {
            if depth > 1 {
                closed_bounds(t, i + 1, (depth - 1) as usize);
            }
        } else {
            closed_bounds(t, i + 1, depth);
        }
    }
}

proof fn tail_generics(t: Seq<char>, s: Seq<char>, m: int) -> (n: int)
    requires
        tail_of(t, s, m),
    ensures
        m <= n,
        tail_of(behind_generics(t), s, n),
{
    if starts(t, "<"@) {
        closed_bounds(t, 0, 0);
        match closed_from(t, 0, 0) {
            Some(j) => {
                assert(t.skip(j) =~= s.skip(m + j));
                tail_trimmed(t.skip(j), s, m + j)
            },
            None => m,
        }
    } else {
        m
    }
}

proof fn word_found(t: Seq<char>, w: Seq<char>, i: int)
    requires
        0 <= i,
        word_from(t, w, i) is Some,
    ensures
        i <= word_from(t, w, i)->0,
        name_ends(t, w, word_from(t, w, i)->0),
        word_from(t, w, i)->0 > 0 ==> !in_name(t[word_from(t, w, i)->0 - 1]),
    decreases t.len() - i,
{
    if i < t.len() {
        let hit = at(t, w, i) && (i == 0 || !in_class(Class::Ident, t[i - 1])) && (i + w.len()
            >= t.len() || !in_class(Class::Ident, t[i + w.len()]));
        if !hit {
            word_found(t, w, i + 1);
        }
    }
}

/// A line that implements a trait begins with `impl`, names the trait as a whole behind it, and
/// holds `for` behind the trait.
pub proof fn implementing_lines(line: Seq<char>, tr: Seq<char>)
    requires
        implements_on(line, tr),
    ensures
        begins(line, "impl"@),
        exists|k: int, m: int| #[trigger]
            name_ends(line, tr, k) && #[trigger] name_ends(line, "for"@, m) && 4 <= k && k + tr.len()
                <= m,
{
    reveal_strlit("impl");
    begins_is_starts(line, "impl"@);
    assert(tail_of(line, line, 0)) by {
        assert(line =~= line.skip(0));
    }
    let t = trimmed_start(line);
    let a = tail_trimmed(line, line, 0);
    tail_behind(t, line, a, "impl"@);
    let rest = behind(t, "impl"@)->0;
    let b = tail_trimmed(rest, line, a + 4);
    let c = tail_generics(trimmed_start(rest), line, b);
    let g = behind_generics(trimmed_start(rest));
    tail_behind(g, line, c, tr);
    let r = behind(g, tr)->0;
    if c + tr.len() < line.len() {
        assert(r[0] == line[c + tr.len()]);
    }
    assert(name_ends(line, tr, c));
    let d = tail_trimmed(r, line, c + tr.len());
    let tail = behind_name(g, tr)->0;
    let e = tail_generics(tail, line, d);
    let u = behind_generics(tail);
    word_found(u, "for"@, 0);
    let i = word_from(u, "for"@, 0)->0;
    at_behind(line, "for"@, e, i);
    if e + i + "for"@.len() < line.len() {
        assert(u[i + "for"@.len()] == line[e + i + "for"@.len()]);
    }
    assert(name_ends(line, "for"@, e + i));
}

/// Whether a text begins with exactly this name: what comes behind it goes on with no character of a
/// name.
spec fn leads_with(s: Seq<char>, name: Seq<char>) -> bool {
    name_ends(s, name, 0) && forall|j: int| 0 <= j < name.len() ==> in_name(#[trigger] name[j])
}

proof fn lead_is_name(s: Seq<char>, name: Seq<char>)
    ensures
        leads_with(s, name) <==> lead(s, Class::Ident) == name,
{
    let n = span_from(s, Class::Ident, 0);
    span_from_bounds(s, Class::Ident, 0);
    if leads_with(s, name) {
        assert forall|j: int| 0 <= j < name.len() implies in_name(#[trigger] s[j]) by {
            assert(s.subrange(0, name.len() as int)[j] == s[j]);
            assert(in_name(name[j]));
        }
        if n < name.len() {
            assert(in_name(s[n]));
        }
        if n > name.len() {
            assert(in_class(Class::Ident, s[name.len() as int]));
        }
        assert(s.take(n) =~= s.subrange(0, name.len() as int));
    }
    if lead(s, Class::Ident) == name {
        assert(name.len() == n);
        assert(s.subrange(0, n) =~= name);
        assert forall|j: int| 0 <= j < name.len() implies in_name(#[trigger] name[j]) by {
            assert(in_class(Class::Ident, s[j]));
        }
    }
}

/// Whether a word that declares a type, and behind it exactly this name, stand at a position.
pub open spec fn declares_type_at(line: Seq<char>, name: Seq<char>, i: int) -> bool {
    ||| at(line, "trait "@, i) && name_ends(line, name, i + 6)
    ||| at(line, "struct "@, i) && name_ends(line, name, i + 7)
    ||| at(line, "enum "@, i) && name_ends(line, name, i + 5)
    ||| at(line, "type "@, i) && name_ends(line, name, i + 5)
}

proof fn tail_declared(line: Seq<char>) -> (n: int)
    ensures
        tail_of(declared_part(line), line, n),
{
    assert(line =~= line.skip(0));
    let a = tail_trimmed(line, line, 0);
    let t = trimmed_start(line);
    let p = without_pub(t);
    let b = match behind(t, "pub"@) {
        Some(rest) => {
            tail_behind(t, line, a, "pub"@);
            tail_trimmed(rest, line, a + "pub"@.len())
        },
        None => a,
    };
    let q = without_qualifier(p);
    reveal_strlit(")");
    let c = if starts(p, "("@) {
        match crate::text::find(p, ")"@) {
            Some(i) => {
                crate::text::find_from_facts(p, ")"@, 0);
                assert(p.skip(i + 1) =~= line.skip(b + i + 1));
                tail_trimmed(p.skip(i + 1), line, b + i + 1)
            },
            None => b,
        }
    } else {
        b
    };
    match behind(q, "unsafe "@) {
        Some(rest) => {
            tail_behind(q, line, c, "unsafe "@);
            tail_trimmed(rest, line, c + "unsafe "@.len())
        },
        None => c,
    }
}

proof fn names_at(t: Seq<char>, line: Seq<char>, n: int, kw: Seq<char>, name: Seq<char>)
    requires
        tail_of(t, line, n),
        names_behind(t, kw, name),
    ensures
        at(line, kw, n),
        name_ends(line, name, n + kw.len()),
{
    tail_behind(t, line, n, kw);
    let rest = behind(t, kw)->0;
    lead_is_name(rest, name);
    at_behind(line, name, n + kw.len(), 0);
    if n + kw.len() + name.len() < line.len() {
        assert(rest[name.len() as int] == line[n + kw.len() + name.len()]);
    }
}

/// A line that defines a trait or a type with a name holds the word that declares it and, directly
/// behind that, exactly the name.
pub proof fn defining_lines(line: Seq<char>, name: Seq<char>)
    requires
        defines_on(line, name),
    ensures
        exists|i: int| declares_type_at(line, name, i),
{
    reveal_strlit("trait ");
    reveal_strlit("struct ");
    reveal_strlit("enum ");
    reveal_strlit("type ");
    let n = tail_declared(line);
    let t = declared_part(line);
    if names_behind(t, "trait "@, name) {
        names_at(t, line, n, "trait "@, name);
    } else if names_behind(t, "struct "@, name) {
        names_at(t, line, n, "struct "@, name);
    } else if names_behind(t, "enum "@, name) {
        names_at(t, line, n, "enum "@, name);
    } else {
        names_at(t, line, n, "type "@, name);
    }
    assert(declares_type_at(line, name, n));
}

/// A line that begins with `pub`, a space and the declaration of a type defines a public type with
/// exactly that name.
pub proof fn public_types_are_seen(line: Seq<char>, kw: Seq<char>, name: Seq<char>, w: int)
    requires
        kw == "struct "@ || kw == "enum "@ || kw == "type "@,
        blank_upto(line, w),
        at(line, "pub "@, w),
        at(line, kw, w + 4),
        name_ends(line, name, w + 4 + kw.len()),
        forall|j: int| 0 <= j < name.len() ==> in_name(#[trigger] name[j]),
    ensures
        public_type(line) == Some(name),
{
    reveal_strlit("pub ");
    reveal_strlit("struct ");
    reveal_strlit("enum ");
    reveal_strlit("type ");
    let t = trimmed_start(line);
    blanks_end(line);
    let v = span_from(line, Class::White, 0);
    assert(line.subrange(w, w + 4)[0] == line[w]);
    assert(line[w] == 'p');
    if v < w {
        assert(white(line[v]));
    } else if w < v {
        assert(white(line[w]));
    }
    at_behind(line, "pub "@, w, 0);
    let rest = behind(t, "pub "@)->0;
    assert(rest =~= line.skip(w + 4));
    assert(line.subrange(w + 4, w + 4 + kw.len())[0] == line[w + 4]);
    assert(line[w + 4] == kw[0]);
    blanks_end(rest);
    let z = span_from(rest, Class::White, 0);
    assert(rest[0] == kw[0]);
    if z > 0 {
        assert(white(rest[0]));
    }
    let u = trimmed_start(rest);
    assert(u =~= rest);
    at_behind(line, kw, w + 4, 0);
    at_behind(line, "struct "@, w + 4, 0);
    at_behind(line, "enum "@, w + 4, 0);
    at_behind(line, "type "@, w + 4, 0);
    if starts(u, "struct "@) {
        assert(u.subrange(0, 7)[0] == u[0]);
    }
    if starts(u, "enum "@) {
        assert(u.subrange(0, 5)[0] == u[0]);
    }
    let r = u.skip(kw.len() as int);
    assert(r =~= line.skip(w + 4 + kw.len()));
    at_behind(line, name, w + 4 + kw.len(), 0);
    if name.len() < r.len() {
        assert(r[name.len() as int] == line[w + 4 + kw.len() + name.len()]);
    }
    lead_is_name(r, name);
}

} // verus!
