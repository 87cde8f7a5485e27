//! Architecture contracts: an addition to a level must fulfil the anchor of the level, must not
//! reach around its abstraction, and must not replace what is sealed.
use vstd::prelude::*;

use crate::config::Contract;
use crate::finding::{
    emit, file_finding, finding_views, line_finding, Finding, FindingView, Location, Severity,
};
use crate::moves::{strip_pub, strip_qualifier, without_pub, without_qualifier, Workspace};
use crate::text::{
    at, behind, cat3, cat4, cat5, cat7, chars, contains, gather, gather_empty, holds, in_class, lead,
    leading, lines, lines_of, occurs, put, rcut, rsplit_once, same, slice, stands_at, starts, starts_with,
    strip_prefix, text_opt, texts, trim_start, trimmed_start, Class,
};
use crate::walk::{is_in, lies_in};

verus! {

/// The name of a level.
pub open spec fn level_name(c: Contract) -> Seq<char> {
    if c.level@.len() == 0 {
        c.path@
    } else {
        c.level@
    }
}

// ── reading source lines ───────────────────────────────────────────────────────────────

/// The position behind the bracket that closes the last of `depth` open ones, from position `i` on.
/// An arrow does not close one.
pub open spec fn closed_from(t: Seq<char>, i: int, depth: usize) -> Option<int>
    decreases t.len() - i,
{
    if i < 0 || i >= t.len() {
        None
    } else if t[i] == '<' {
        if depth < usize::MAX {
            closed_from(t, i + 1, (depth + 1) as usize)
        } else {
            None
        }
    } else if t[i] == '>' && !(i > 0 && t[i - 1] == '-') {
        if depth <= 1 {
            Some(i + 1)
        } else {
            closed_from(t, i + 1, (depth - 1) as usize)
        }
    } else {
        closed_from(t, i + 1, depth)
    }
}

/// What comes behind the generic parameters or arguments that a text begins with.
pub open spec fn behind_generics(t: Seq<char>) -> Seq<char> {
    if starts(t, "<"@) {
        match closed_from(t, 0, 0) {
            Some(j) => trimmed_start(t.skip(j)),
            None => t,
        }
    } else {
        t
    }
}

/// What comes behind a whole name that a text begins with.
pub open spec fn behind_name(t: Seq<char>, name: Seq<char>) -> Option<Seq<char>> {
    match behind(t, name) {
        Some(rest) => if rest.len() > 0 && in_class(Class::Ident, rest[0]) {
            None
        } else {
            Some(trimmed_start(rest))
        },
        None => None,
    }
}

/// The first position from `i` on at which a text holds a word that is no part of a longer one.
pub open spec fn word_from(t: Seq<char>, w: Seq<char>, i: int) -> Option<int>
    decreases t.len() - i,
{
    if i < 0 || i >= t.len() {
        None
    } else if at(t, w, i) && (i == 0 || !in_class(Class::Ident, t[i - 1])) && (i + w.len() >= t.len()
        || !in_class(Class::Ident, t[i + w.len()])) {
        Some(i)
    } else {
        word_from(t, w, i + 1)
    }
}

/// What comes behind the first place at which a text holds a whole word.
pub open spec fn behind_word(t: Seq<char>, w: Seq<char>) -> Option<Seq<char>> {
    match word_from(t, w, 0) {
        Some(i) => Some(trimmed_start(t.skip(i + w.len()))),
        None => None,
    }
}

/// What a line implements the trait `tr` for, where it begins an implementation of it: the trait is
/// named as a whole, and `for` comes somewhere behind it and its generics.
pub open spec fn behind_trait(line: Seq<char>, tr: Seq<char>) -> Option<Seq<char>> {
    match behind(trimmed_start(line), "impl"@) {
        Some(rest) => match behind_name(behind_generics(trimmed_start(rest)), tr) {
            Some(tail) => behind_word(behind_generics(tail), "for"@),
            None => None,
        },
        None => None,
    }
}

/// Whether a line begins an implementation of the trait `tr`.
pub open spec fn implements_on(line: Seq<char>, tr: Seq<char>) -> bool {
    behind_trait(line, tr) is Some
}

/// The last name of a path of names.
pub open spec fn last_name(path: Seq<char>) -> Seq<char> {
    match rcut(path, "::"@) {
        Some((_, name)) => lead(name, Class::Ident),
        None => lead(path, Class::Ident),
    }
}

/// The type that a line implements the trait `tr` for.
pub open spec fn implemented_for(line: Seq<char>, tr: Seq<char>) -> Option<Seq<char>> {
    match behind_trait(line, tr) {
        Some(target) => Some(last_name(lead(target, Class::Path))),
        None => None,
    }
}

/// The public type that a line defines.
pub open spec fn public_type(line: Seq<char>) -> Option<Seq<char>> {
    match behind(trimmed_start(line), "pub "@) {
        Some(rest) => {
            let t = trimmed_start(rest);
            match (behind(t, "struct "@), behind(t, "enum "@), behind(t, "type "@)) {
                (Some(r), _, _) => Some(lead(r, Class::Ident)),
                (None, Some(r), _) => Some(lead(r, Class::Ident)),
                (None, None, Some(r)) => Some(lead(r, Class::Ident)),
                _ => None,
            }
        },
        None => None,
    }
}

/// The public type that the line at a position defines, where it defines one.
pub open spec fn public_type_at(ls: Seq<Seq<char>>) -> spec_fn(int) -> Seq<Seq<char>> {
    |i: int|
        match public_type(ls[i]) {
            Some(n) => if n.len() > 0 {
                seq![n]
            } else {
                seq![]
            },
            None => seq![],
        }
}

/// The public types that a text defines.
pub open spec fn public_types(text: Seq<char>) -> Seq<Seq<char>> {
    gather(lines_of(text).len() as int, public_type_at(lines_of(text)))
}

/// What a line declares, without its visibility and without the word `unsafe`.
pub open spec fn declared_part(line: Seq<char>) -> Seq<char> {
    let t = without_qualifier(without_pub(trimmed_start(line)));
    match behind(t, "unsafe "@) {
        Some(rest) => trimmed_start(rest),
        None => t,
    }
}

/// Whether `t` defines the name `name` behind the keyword `kw`.
pub open spec fn names_behind(t: Seq<char>, kw: Seq<char>, name: Seq<char>) -> bool {
    match behind(t, kw) {
        Some(rest) => lead(rest, Class::Ident) == name,
        None => false,
    }
}

/// Whether a line defines a trait or a type with a name.
pub open spec fn defines_on(line: Seq<char>, name: Seq<char>) -> bool {
    let t = declared_part(line);
    names_behind(t, "trait "@, name) || names_behind(t, "struct "@, name) || names_behind(
        t,
        "enum "@,
        name,
    ) || names_behind(t, "type "@, name)
}

/// Whether a text begins an implementation of the trait `tr` somewhere.
pub open spec fn implements(text: Seq<char>, tr: Seq<char>) -> bool {
    exists|i: int| 0 <= i < lines_of(text).len() && implements_on(#[trigger] lines_of(text)[i], tr)
}

/// Whether a text implements the trait `tr` for one of several types.
pub open spec fn implements_one(text: Seq<char>, tr: Seq<char>, types: Seq<Seq<char>>) -> bool {
    exists|i: int|
        0 <= i < lines_of(text).len() && (match implemented_for(#[trigger] lines_of(text)[i], tr) {
            Some(t) => types.contains(t),
            None => false,
        })
}

/// Whether a text defines a trait or a type with a name.
pub open spec fn defines_type(text: Seq<char>, name: Seq<char>) -> bool {
    exists|i: int| 0 <= i < lines_of(text).len() && defines_on(#[trigger] lines_of(text)[i], name)
}

/// The first line from `i` on that holds `pat`.
pub open spec fn hit_from(ls: Seq<Seq<char>>, pat: Seq<char>, i: int) -> Option<int>
    decreases ls.len() - i,
{
    if i >= ls.len() {
        None
    } else if occurs(ls[i], pat) {
        Some(i)
    } else {
        hit_from(ls, pat, i + 1)
    }
}

// ── what the contracts say ─────────────────────────────────────────────────────────────

/// Whether a file is of the kind that a contract speaks of.
pub open spec fn triggered(c: Contract, text: Seq<char>) -> bool {
    match c.when_defines {
        Some(marker) => occurs(text, marker@),
        None => true,
    }
}

/// Whether some file under the path of a contract implements the trait `tr` for one of several
/// types.
pub open spec fn anchored_elsewhere(
    ws: Workspace,
    c: Contract,
    tr: Seq<char>,
    types: Seq<Seq<char>>,
) -> bool {
    exists|i: int|
        0 <= i < ws.files@.len() && lies_in((#[trigger] ws.files@[i]).0, c.path@) && implements_one(
            ws.files@[i].1@,
            tr,
            types,
        )
}

/// What stands against a file that does not fulfil the anchor of its level: neither it nor, for
/// a public type of it, another file of the level implements the trait.
pub open spec fn anchor_findings(ws: Workspace, c: Contract, rel: Seq<char>, text: Seq<char>) -> Seq<
    FindingView,
> {
    match c.must_impl {
        None => seq![],
        Some(tr) => if triggered(c, text) && !implements(text, tr@) && !anchored_elsewhere(
            ws,
            c,
            tr@,
            public_types(text),
        ) {
            seq![
                file_finding(
                    "contract-anchor"@,
                    Severity::Error,
                    level_name(c) + ": "@ + rel + " "@ + (match c.when_defines {
                        Some(m) => "defines `"@ + m@ + "` but"@,
                        None => "is at this level but"@,
                    }) + " has no `impl "@ + tr@ + "` — an addition here must fulfill the "@ + tr@
                        + " contract"@,
                    rel,
                    Some(
                        "implement `"@ + tr@ + "` for the new type, or move it out of "@ + c.path@,
                    ),
                ),
            ]
        } else {
            seq![]
        },
    }
}

/// What stands against a forbidden text in a file.
pub open spec fn forbidden_finding(c: Contract, rel: Seq<char>, text: Seq<char>) -> spec_fn(
    int,
) -> Seq<FindingView> {
    |i: int|
        match hit_from(lines_of(text), c.forbid@[i]@, 0) {
            Some(k) => seq![
                line_finding(
                    "contract-forbid"@,
                    Severity::Error,
                    level_name(c) + ": forbidden `"@ + c.forbid@[i]@ + "` under "@ + c.path@
                        + " — not permitted at this level"@,
                    rel,
                    (k + 1) as u32,
                    Some("route through the level's abstraction instead of the escape hatch"@),
                ),
            ],
            None => seq![],
        }
}

/// What stands against a file under the path of a contract.
pub open spec fn level_findings(ws: Workspace, c: Contract) -> spec_fn(int) -> Seq<FindingView> {
    |i: int|
        {
            let rel = ws.files@[i].0;
            let text = ws.files@[i].1@;
            if lies_in(rel, c.path@) {
                anchor_findings(ws, c, rel, text) + gather(
                    c.forbid@.len() as int,
                    forbidden_finding(c, rel, text),
                )
            } else {
                seq![]
            }
        }
}

/// Whether some file defines a trait or a type with a name.
pub open spec fn defined_somewhere(ws: Workspace, name: Seq<char>) -> bool {
    exists|i: int| 0 <= i < ws.files@.len() && defines_type((#[trigger] ws.files@[i]).1@, name)
}

/// What stands against the loss of a sealed abstraction.
pub open spec fn seal_findings(ws: Workspace, c: Contract) -> Seq<FindingView> {
    match c.sealed {
        None => seq![],
        Some(seal) => if defined_somewhere(ws, seal@) {
            seq![]
        } else {
            seq![
                file_finding(
                    "contract-seal"@,
                    Severity::Error,
                    level_name(c) + ": sealed abstraction `"@ + seal@
                        + "` was removed or renamed — extend the seam with a new impl, don't replace it"@,
                    c.path@,
                    Some(
                        "restore `"@ + seal@ + "`; add capability as a new impl beneath it"@,
                    ),
                ),
            ]
        },
    }
}

/// What stands against the files by one contract.
pub open spec fn contract_findings(ws: Workspace, cs: Seq<Contract>) -> spec_fn(int) -> Seq<
    FindingView,
> {
    |i: int|
        gather(ws.files@.len() as int, level_findings(ws, cs[i])) + seal_findings(ws, cs[i])
}

// ── evaluation ─────────────────────────────────────────────────────────────────────────

fn write_level(c: &Contract) -> (r: String)
    ensures
        r@ == level_name(*c),
{
    if chars(c.level.as_str()).len() == 0 {
        c.path.clone()
    } else {
        c.level.clone()
    }
}

fn find_closed(a: &Vec<char>) -> (r: Option<usize>)
    ensures
        crate::text::place(r) == closed_from(a@, 0, 0),
        r is Some ==> r->0 <= a.len(),
{
    let mut depth: usize = 0;
    let mut i: usize = 0;
    while i < a.len()
        invariant
            i <= a.len(),
            closed_from(a@, 0, 0) == closed_from(a@, i as int, depth),
        decreases a.len() - i,
    {
        let c = a[i];
        if c == '<' {
            if depth == usize::MAX {
                return None;
            }
            depth += 1;
        } else if c == '>' && !(i > 0 && a[i - 1] == '-') {
            if depth <= 1 {
                return Some(i + 1);
            }
            depth -= 1;
        }
        i += 1;
    }
    None
}

fn skip_generics(t: String) -> (r: String)
    ensures
        r@ == behind_generics(t@),
{
    if starts_with(t.as_str(), "<") {
        let a = chars(t.as_str());
        match find_closed(&a) {
            Some(j) => {
                assert(a@.subrange(j as int, a@.len() as int) =~= t@.skip(j as int));
                trim_start(slice(&a, j, a.len()).as_str())
            },
            None => t,
        }
    } else {
        t
    }
}

fn skip_name(t: &str, name: &str) -> (r: Option<String>)
    ensures
        text_opt(r) == behind_name(t@, name@),
{
    match strip_prefix(t, name) {
        Some(rest) => {
            let a = chars(rest.as_str());
            if a.len() > 0 && crate::text::belongs(Class::Ident, a[0]) {
                None
            } else {
                Some(trim_start(rest.as_str()))
            }
        },
        None => None,
    }
}

fn skip_to_word(t: &str, w: &str) -> (r: Option<String>)
    ensures
        text_opt(r) == behind_word(t@, w@),
{
    let a = chars(t);
    let p = chars(w);
    let mut i: usize = 0;
    while i < a.len()
        invariant
            i <= a.len(),
            a@ == t@,
            p@ == w@,
            word_from(t@, w@, 0) == word_from(t@, w@, i as int),
        decreases a.len() - i,
    {
        if stands_at(&a, &p, i) {
            let end: usize = i + p.len();
            let free = i == 0 || !crate::text::belongs(Class::Ident, a[i - 1]);
            if free && (end >= a.len() || !crate::text::belongs(Class::Ident, a[end])) {
                assert(a@.subrange(end as int, a@.len() as int) =~= t@.skip(i + w@.len()));
                return Some(trim_start(slice(&a, end, a.len()).as_str()));
            }
        }
        i += 1;
    }
    None
}

fn skip_trait(line: &str, tr: &str) -> (r: Option<String>)
    ensures
        text_opt(r) == behind_trait(line@, tr@),
{
    match strip_prefix(trim_start(line).as_str(), "impl") {
        Some(rest) => match skip_name(skip_generics(trim_start(rest.as_str())).as_str(), tr) {
            Some(tail) => skip_to_word(skip_generics(tail).as_str(), "for"),
            None => None,
        },
        None => None,
    }
}

fn does_implement_on(line: &str, tr: &str) -> (r: bool)
    ensures
        r == implements_on(line@, tr@),
{
    skip_trait(line, tr).is_some()
}

fn find_implemented(line: &str, tr: &str) -> (r: Option<String>)
    ensures
        text_opt(r) == implemented_for(line@, tr@),
{
    match skip_trait(line, tr) {
        Some(target) => {
            let path = leading(target.as_str(), Class::Path);
            match rsplit_once(path.as_str(), "::") {
                Some((_outer, name)) => Some(leading(name.as_str(), Class::Ident)),
                None => Some(leading(path.as_str(), Class::Ident)),
            }
        },
        None => None,
    }
}

fn find_public_type(line: &str) -> (r: Option<String>)
    ensures
        text_opt(r) == public_type(line@),
{
    match strip_prefix(trim_start(line).as_str(), "pub ") {
        Some(rest) => {
            let t = trim_start(rest.as_str());
            match strip_prefix(t.as_str(), "struct ") {
                Some(r) => Some(leading(r.as_str(), Class::Ident)),
                None => match strip_prefix(t.as_str(), "enum ") {
                    Some(r) => Some(leading(r.as_str(), Class::Ident)),
                    None => match strip_prefix(t.as_str(), "type ") {
                        Some(r) => Some(leading(r.as_str(), Class::Ident)),
                        None => None,
                    },
                },
            }
        },
        None => None,
    }
}

fn list_public_types(text: &str) -> (r: Vec<String>)
    ensures
        texts(r@) == public_types(text@),
{
    let ls = lines(text);
    let ghost all = lines_of(text@);
    let mut r: Vec<String> = Vec::new();
    let mut i: usize = 0;
    while i < ls.len()
        invariant
            i <= ls.len(),
            all == texts(ls@),
            texts(r@) =~= gather(i as int, public_type_at(all)),
        decreases ls.len() - i,
    {
        assert(all[i as int] == ls@[i as int]@);
        match find_public_type(ls[i].as_str()) {
            Some(n) => {
                if chars(n.as_str()).len() > 0 {
                    put(&mut r, n);
                }
            },
            None => {},
        }
        i += 1;
    }
    assert(all.len() == ls@.len());
    r
}

fn write_declared(line: &str) -> (r: String)
    ensures
        r@ == declared_part(line@),
{
    let t = strip_qualifier(strip_pub(trim_start(line)));
    match strip_prefix(t.as_str(), "unsafe ") {
        Some(rest) => trim_start(rest.as_str()),
        None => t,
    }
}

fn does_name(t: &str, kw: &str, name: &str) -> (r: bool)
    ensures
        r == names_behind(t@, kw@, name@),
{
    match strip_prefix(t, kw) {
        Some(rest) => same(leading(rest.as_str(), Class::Ident).as_str(), name),
        None => false,
    }
}

fn does_define_on(line: &str, name: &str) -> (r: bool)
    ensures
        r == defines_on(line@, name@),
{
    let t = write_declared(line);
    does_name(t.as_str(), "trait ", name) || does_name(t.as_str(), "struct ", name) || does_name(
        t.as_str(),
        "enum ",
        name,
    ) || does_name(t.as_str(), "type ", name)
}

fn does_implement(text: &str, tr: &str) -> (r: bool)
    ensures
        r == implements(text@, tr@),
{
    let ls = lines(text);
    let ghost all = lines_of(text@);
    let mut i: usize = 0;
    while i < ls.len()
        invariant
            i <= ls.len(),
            all == texts(ls@),
            all == lines_of(text@),
            forall|k: int| 0 <= k < i ==> !implements_on(#[trigger] all[k], tr@),
        decreases ls.len() - i,
    {
        assert(all[i as int] == ls@[i as int]@);
        if does_implement_on(ls[i].as_str(), tr) {
            return true;
        }
        i += 1;
    }
    false
}

fn does_implement_one(text: &str, tr: &str, types: &Vec<String>) -> (r: bool)
    ensures
        r == implements_one(text@, tr@, texts(types@)),
{
    let ls = lines(text);
    let ghost all = lines_of(text@);
    let mut i: usize = 0;
    while i < ls.len()
        invariant
            i <= ls.len(),
            all == texts(ls@),
            all == lines_of(text@),
            forall|k: int|
                0 <= k < i ==> !(match implemented_for(#[trigger] all[k], tr@) {
                    Some(t) => texts(types@).contains(t),
                    None => false,
                }),
        decreases ls.len() - i,
    {
        assert(all[i as int] == ls@[i as int]@);
        match find_implemented(ls[i].as_str(), tr) {
            Some(t) => {
                if holds(types, t.as_str()) {
                    return true;
                }
            },
            None => {},
        }
        i += 1;
    }
    false
}

fn does_define(text: &str, name: &str) -> (r: bool)
    ensures
        r == defines_type(text@, name@),
{
    let ls = lines(text);
    let ghost all = lines_of(text@);
    let mut i: usize = 0;
    while i < ls.len()
        invariant
            i <= ls.len(),
            all == texts(ls@),
            all == lines_of(text@),
            forall|k: int| 0 <= k < i ==> !defines_on(#[trigger] all[k], name@),
        decreases ls.len() - i,
    {
        assert(all[i as int] == ls@[i as int]@);
        if does_define_on(ls[i].as_str(), name) {
            return true;
        }
        i += 1;
    }
    false
}

fn first_hit_line(text: &str, pat: &str) -> (r: Option<usize>)
    ensures
        crate::text::place(r) == hit_from(lines_of(text@), pat@, 0),
        r is Some ==> r->0 < usize::MAX,
{
    let ls = lines(text);
    let ghost all = lines_of(text@);
    let mut i: usize = 0;
    while i < ls.len()
        invariant
            i <= ls.len(),
            all == texts(ls@),
            hit_from(all, pat@, 0) == hit_from(all, pat@, i as int),
            all == lines_of(text@),
        decreases ls.len() - i,
    {
        assert(all[i as int] == ls@[i as int]@);
        if contains(ls[i].as_str(), pat) {
            return Some(i);
        }
        i += 1;
    }
    None
}

fn is_anchored_elsewhere(ws: &Workspace, c: &Contract, tr: &str, types: &Vec<String>) -> (r: bool)
    ensures
        r == anchored_elsewhere(*ws, *c, tr@, texts(types@)),
{
    let total = ws.files.len();
    let mut i: usize = 0;
    while i < total
        invariant
            i <= total == ws.files@.len(),
            forall|k: int|
                0 <= k < i ==> !(lies_in((#[trigger] ws.files@[k]).0, c.path@) && implements_one(
                    ws.files@[k].1@,
                    tr@,
                    texts(types@),
                )),
        decreases total - i,
    {
        if is_in(ws.files.name(i).as_str(), c.path.as_str()) && does_implement_one(
            ws.files.value(i).as_str(),
            tr,
            types,
        ) {
            return true;
        }
        i += 1;
    }
    false
}

fn check_anchor(ws: &Workspace, c: &Contract, rel: &str, text: &str, out: &mut Vec<Finding>)
    ensures
        finding_views(final(out)@) == finding_views(old(out)@) + anchor_findings(
            *ws,
            *c,
            rel@,
            text@,
        ),
{
    let ghost before = finding_views(out@);
    match &c.must_impl {
        None => {},
        Some(tr) => {
            let of_kind = match &c.when_defines {
                Some(marker) => contains(text, marker.as_str()),
                None => true,
            };
            if of_kind && !does_implement(text, tr.as_str()) && !is_anchored_elsewhere(
                ws,
                c,
                tr.as_str(),
                &list_public_types(text),
            ) {
                let because = match &c.when_defines {
                    Some(m) => cat3("defines `", m.as_str(), "` but"),
                    None => "is at this level but".to_owned(),
                };
                let mut message = cat7(
                    write_level(c).as_str(),
                    ": ",
                    rel,
                    " ",
                    because.as_str(),
                    " has no `impl ",
                    tr.as_str(),
                );
                message.append("` — an addition here must fulfill the ");
                message.append(tr.as_str());
                message.append(" contract");
                let f = Finding::new(
                    "contract-anchor",
                    Severity::Error,
                    message,
                    Location::file(rel.to_owned()),
                );
                emit(
                    out,
                    f.with_fix(
                        cat4(
                            "implement `",
                            tr.as_str(),
                            "` for the new type, or move it out of ",
                            c.path.as_str(),
                        ),
                    ),
                );
            }
        },
    }
    assert(finding_views(out@) =~= before + anchor_findings(*ws, *c, rel@, text@));
}

fn check_forbidden(c: &Contract, rel: &str, text: &str, out: &mut Vec<Finding>)
    ensures
        finding_views(final(out)@) == finding_views(old(out)@) + gather(
            c.forbid@.len() as int,
            forbidden_finding(*c, rel@, text@),
        ),
{
    let ghost before = finding_views(out@);
    let mut i: usize = 0;
    while i < c.forbid.len()
        invariant
            i <= c.forbid.len(),
            finding_views(out@) =~= before + gather(
                i as int,
                forbidden_finding(*c, rel@, text@),
            ),
        decreases c.forbid.len() - i,
    {
        let pat = &c.forbid[i];
        match first_hit_line(text, pat.as_str()) {
            Some(k) => {
                let mut message = cat5(
                    write_level(c).as_str(),
                    ": forbidden `",
                    pat.as_str(),
                    "` under ",
                    c.path.as_str(),
                );
                message.append(" — not permitted at this level");
                let n: usize = k + 1;
                let line: u32 = #[verifier::truncate] (n as u32);
                let f = Finding::new(
                    "contract-forbid",
                    Severity::Error,
                    message,
                    Location::at(rel.to_owned(), line),
                );
                emit(
                    out,
                    f.with_fix(
                        "route through the level's abstraction instead of the escape hatch".to_owned(),
                    ),
                );
            },
            None => {},
        }
        i += 1;
    }
}

fn check_seal(ws: &Workspace, c: &Contract, out: &mut Vec<Finding>)
    ensures
        finding_views(final(out)@) == finding_views(old(out)@) + seal_findings(*ws, *c),
{
    let ghost before = finding_views(out@);
    match &c.sealed {
        None => {},
        Some(seal) => {
            let total = ws.files.len();
            let mut present = false;
            let mut i: usize = 0;
            while i < total && !present
                invariant
                    i <= total == ws.files@.len(),
                    !present ==> forall|k: int|
                        0 <= k < i ==> !defines_type((#[trigger] ws.files@[k]).1@, seal@),
                    present ==> defined_somewhere(*ws, seal@),
                decreases total - i + (if present { 0int } else { 1int }),
            {
                if does_define(ws.files.value(i).as_str(), seal.as_str()) {
                    assert(defines_type(ws.files@[i as int].1@, seal@));
                    present = true;
                } else {
                    i += 1;
                }
            }
            if !present {
                let f = Finding::new(
                    "contract-seal",
                    Severity::Error,
                    cat4(
                        write_level(c).as_str(),
                        ": sealed abstraction `",
                        seal.as_str(),
                        "` was removed or renamed — extend the seam with a new impl, don't replace it",
                    ),
                    Location::file(c.path.clone()),
                );
                emit(
                    out,
                    f.with_fix(
                        cat3(
                            "restore `",
                            seal.as_str(),
                            "`; add capability as a new impl beneath it",
                        ),
                    ),
                );
            }
        },
    }
    assert(finding_views(out@) =~= before + seal_findings(*ws, *c));
}

/// Holds every contract against the files of a workspace.
pub fn evaluate(ws: &Workspace, contracts: &Vec<Contract>) -> (r: Vec<Finding>)
    ensures
        finding_views(r@) == gather(contracts@.len() as int, contract_findings(*ws, contracts@)),
{
    let mut out: Vec<Finding> = Vec::new();
    let total = ws.files.len();
    let mut i: usize = 0;
    while i < contracts.len()
        invariant
            i <= contracts.len(),
            total == ws.files@.len(),
            finding_views(out@) =~= gather(i as int, contract_findings(*ws, contracts@)),
        decreases contracts.len() - i,
    {
        let c = &contracts[i];
        let ghost before = finding_views(out@);
        let mut k: usize = 0;
        while k < total
            invariant
                k <= total == ws.files@.len(),
                finding_views(out@) =~= before + gather(k as int, level_findings(*ws, *c)),
            decreases total - k,
        {
            let rel = ws.files.name(k);
            let text = ws.files.value(k);
            if is_in(rel.as_str(), c.path.as_str()) {
                check_anchor(ws, c, rel.as_str(), text.as_str(), &mut out);
                check_forbidden(c, rel.as_str(), text.as_str(), &mut out);
            }
            k += 1;
        }
        check_seal(ws, c, &mut out);
        i += 1;
    }
    out
}

proof fn no_hit(ls: Seq<Seq<char>>, pat: Seq<char>, i: int)
    requires
        0 <= i,
        hit_from(ls, pat, i) is None,
    ensures
        forall|k: int| i <= k < ls.len() ==> !occurs(#[trigger] ls[k], pat),
    decreases ls.len() - i,
{
    if i < ls.len() {
        no_hit(ls, pat, i + 1);
    }
}

/// Where the contracts have nothing against a workspace, they are fulfilled: every file of a level
/// that has to implement its trait does so, itself or, for one of its public types, in another file
/// of the level; nothing that is forbidden there stands in it; and what is sealed is still defined.
pub proof fn clean_contracts_hold(ws: Workspace, cs: Seq<Contract>, k: int, i: int)
    requires
        gather(cs.len() as int, contract_findings(ws, cs)).len() == 0,
        0 <= k < cs.len(),
        0 <= i < ws.files@.len(),
    ensures
        lies_in(ws.files@[i].0, cs[k].path@) && cs[k].must_impl is Some && triggered(
            cs[k],
            ws.files@[i].1@,
        ) ==> implements(ws.files@[i].1@, cs[k].must_impl->0@) || anchored_elsewhere(
            ws,
            cs[k],
            cs[k].must_impl->0@,
            public_types(ws.files@[i].1@),
        ),
        lies_in(ws.files@[i].0, cs[k].path@) ==> forall|f: int, l: int|
            0 <= f < cs[k].forbid@.len() && 0 <= l < lines_of(ws.files@[i].1@).len() ==> !occurs(
                #[trigger] lines_of(ws.files@[i].1@)[l],
                #[trigger] cs[k].forbid@[f]@,
            ),
        cs[k].sealed is Some ==> defined_somewhere(ws, cs[k].sealed->0@),
{
    let c = cs[k];
    gather_empty(cs.len() as int, contract_findings(ws, cs));
    assert((contract_findings(ws, cs))(k).len() == 0);
    let n = ws.files@.len() as int;
    gather_empty(n, level_findings(ws, c));
    assert((level_findings(ws, c))(i).len() == 0);
    let rel = ws.files@[i].0;
    let text = ws.files@[i].1@;
    if lies_in(rel, c.path@) {
        assert(anchor_findings(ws, c, rel, text).len() == 0);
        gather_empty(c.forbid@.len() as int, forbidden_finding(c, rel, text));
        assert forall|f: int, l: int|
            0 <= f < c.forbid@.len() && 0 <= l < lines_of(text).len() implies !occurs(
            #[trigger] lines_of(text)[l],
            #[trigger] c.forbid@[f]@,
        ) by {
            assert((forbidden_finding(c, rel, text))(f).len() == 0);
            no_hit(lines_of(text), c.forbid@[f]@, 0);
        }
    }
}

} // verus!
