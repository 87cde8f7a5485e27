//! One shape for the results of every analysis, and how they are shown: as text, as JSON, and as
//! SARIF for code scanning.
use vstd::prelude::*;

use crate::json::{json_list, json_string, list, quote};
use crate::text::{
    cat2, cat3, cat4, cat5, cat7, copy_opt, dec, decimal, decimal_usize, gather, put, text_opt,
    texts,
};

verus! {

/// The version of this tool.
pub const VERSION: &'static str = "0.1.0";

/// How serious a finding is.
#[derive(Debug, Clone, Copy, PartialEq, Eq, Structural)]
pub enum Severity {
    Error,
    Warning,
    Info,
}

/// The SARIF level of a severity.
pub open spec fn level_of(s: Severity) -> Seq<char> {
    match s {
        Severity::Error => "error"@,
        Severity::Warning => "warning"@,
        Severity::Info => "note"@,
    }
}

/// The name of a severity.
pub open spec fn severity_name(s: Severity) -> Seq<char> {
    match s {
        Severity::Error => "error"@,
        Severity::Warning => "warning"@,
        Severity::Info => "info"@,
    }
}

/// The sign of a severity.
pub open spec fn glyph_of(s: Severity) -> Seq<char> {
    match s {
        Severity::Error => "✗"@,
        Severity::Warning => "▲"@,
        Severity::Info => "·"@,
    }
}

impl Severity {
    /// The SARIF level.
    pub fn sarif_level(self) -> (r: &'static str)
        ensures
            r@ == level_of(self),
    {
        match self {
            Severity::Error => "error",
            Severity::Warning => "warning",
            Severity::Info => "note",
        }
    }

    fn name(self) -> (r: &'static str)
        ensures
            r@ == severity_name(self),
    {
        match self {
            Severity::Error => "error",
            Severity::Warning => "warning",
            Severity::Info => "info",
        }
    }

    fn glyph(self) -> (r: &'static str)
        ensures
            r@ == glyph_of(self),
    {
        match self {
            Severity::Error => "✗",
            Severity::Warning => "▲",
            Severity::Info => "·",
        }
    }
}

/// A place in the source: a file, and perhaps a line of it, counted from 1.
#[derive(Debug, Clone)]
pub struct Location {
    pub file: String,
    pub line: Option<u32>,
}

/// A place in the source.
#[verifier::ext_equal]
pub struct LocationView {
    pub file: Seq<char>,
    pub line: Option<u32>,
}

impl View for Location {
    type V = LocationView;

    open spec fn view(&self) -> LocationView {
        LocationView { file: self.file@, line: self.line }
    }
}

/// A place as it is shown.
pub open spec fn place_text(l: LocationView) -> Seq<char> {
    match l.line {
        Some(n) => l.file + ":"@ + dec(n as nat),
        None => l.file,
    }
}

impl Location {
    /// A file.
    pub fn file(file: String) -> (r: Location)
        ensures
            r.file == file,
            r.line is None,
    {
        Location { file, line: None }
    }

    /// A line of a file.
    pub fn at(file: String, line: u32) -> (r: Location)
        ensures
            r.file == file,
            r.line == Some(line),
    {
        Location { file, line: Some(line) }
    }

    fn render(&self) -> (r: String)
        ensures
            r@ == place_text(self@),
    {
        match self.line {
            Some(n) => cat3(self.file.as_str(), ":", decimal(n as u64).as_str()),
            None => self.file.clone(),
        }
    }

    /// A copy.
    pub fn copy(&self) -> (r: Location)
        ensures
            r == *self,
    {
        Location { file: self.file.clone(), line: self.line }
    }
}

/// A result of an analysis.
#[derive(Debug, Clone)]
pub struct Finding {
    pub rule: String,
    pub severity: Severity,
    pub message: String,
    pub location: Location,
    pub related: Vec<Location>,
    pub fix: Option<String>,
}

/// A result of an analysis.
#[verifier::ext_equal]
pub struct FindingView {
    pub rule: Seq<char>,
    pub severity: Severity,
    pub message: Seq<char>,
    pub location: LocationView,
    pub related: Seq<LocationView>,
    pub fix: Option<Seq<char>>,
}

/// The views of a list of places.
pub open spec fn location_views(v: Seq<Location>) -> Seq<LocationView> {
    v.map_values(|l: Location| l@)
}

/// The views of a list of findings.
pub open spec fn finding_views(v: Seq<Finding>) -> Seq<FindingView> {
    v.map_values(|f: Finding| f@)
}

impl View for Finding {
    type V = FindingView;

    open spec fn view(&self) -> FindingView {
        FindingView {
            rule: self.rule@,
            severity: self.severity,
            message: self.message@,
            location: self.location@,
            related: location_views(self.related@),
            fix: text_opt(self.fix),
        }
    }
}

/// A finding at a file, with a fix.
pub open spec fn file_finding(
    rule: Seq<char>,
    severity: Severity,
    message: Seq<char>,
    file: Seq<char>,
    fix: Option<Seq<char>>,
) -> FindingView {
    FindingView {
        rule,
        severity,
        message,
        location: LocationView { file, line: None },
        related: seq![],
        fix,
    }
}

/// A finding at a line, with a fix.
pub open spec fn line_finding(
    rule: Seq<char>,
    severity: Severity,
    message: Seq<char>,
    file: Seq<char>,
    line: u32,
    fix: Option<Seq<char>>,
) -> FindingView {
    FindingView {
        rule,
        severity,
        message,
        location: LocationView { file, line: Some(line) },
        related: seq![],
        fix,
    }
}

impl Finding {
    /// A finding without related places and without a fix.
    pub fn new(rule: &str, severity: Severity, message: String, location: Location) -> (r: Finding)
        ensures
            r.rule@ == rule@,
            r.severity == severity,
            r.message == message,
            r.location == location,
            r.related@.len() == 0,
            r.fix is None,
            r@ == (FindingView {
                rule: rule@,
                severity,
                message: message@,
                location: location@,
                related: seq![],
                fix: None,
            }),
    {
        let r = Finding {
            rule: rule.to_owned(),
            severity,
            message,
            location,
            related: Vec::new(),
            fix: None,
        };
        assert(location_views(r.related@) =~= seq![]);
        r
    }

    /// The finding with these related places.
    pub fn with_related(self, related: Vec<Location>) -> (r: Finding)
        ensures
            r == (Finding { related, ..self }),
            r@ == (FindingView { related: location_views(related@), ..self@ }),
    {
        Finding {
            rule: self.rule,
            severity: self.severity,
            message: self.message,
            location: self.location,
            related,
            fix: self.fix,
        }
    }

    /// The finding with this fix.
    pub fn with_fix(self, fix: String) -> (r: Finding)
        ensures
            r == (Finding { fix: Some(fix), ..self }),
            r@ == (FindingView { fix: Some(fix@), ..self@ }),
    {
        Finding {
            rule: self.rule,
            severity: self.severity,
            message: self.message,
            location: self.location,
            related: self.related,
            fix: Some(fix),
        }
    }

    /// A copy that says the same.
    pub fn copy(&self) -> (r: Finding)
        ensures
            r@ == self@,
    {
        Finding {
            rule: self.rule.clone(),
            severity: self.severity,
            message: self.message.clone(),
            location: self.location.copy(),
            related: copy_locations(&self.related),
            fix: copy_opt(&self.fix),
        }
    }
}

fn copy_locations(v: &Vec<Location>) -> (r: Vec<Location>)
    ensures
        r@ == v@,
{
    let mut r: Vec<Location> = Vec::new();
    let mut i: usize = 0;
    while i < v.len()
        invariant
            i <= v.len(),
            r@ =~= v@.take(i as int),
        decreases v.len() - i,
    {
        r.push(v[i].copy());
        i += 1;
    }
    assert(v@.take(v@.len() as int) =~= v@);
    r
}

/// Puts a finding at the end of a list.
pub fn emit(out: &mut Vec<Finding>, f: Finding)
    ensures
        finding_views(final(out)@) == finding_views(old(out)@).push(f@),
        final(out)@ == old(out)@.push(f),
{
    assert(finding_views(out@.push(f)) =~= finding_views(out@).push(f@));
    out.push(f);
}

/// Puts all findings of a list at the end of another.
pub fn emit_all(out: &mut Vec<Finding>, more: Vec<Finding>)
    ensures
        finding_views(final(out)@) == finding_views(old(out)@) + finding_views(more@),
{
    let mut more = more;
    assert(finding_views(out@ + more@) =~= finding_views(out@) + finding_views(more@));
    out.append(&mut more);
}

// ── the catalogue of rules ─────────────────────────────────────────────────────────────

/// The rules that the analyses report, each with its description.
pub open spec fn catalogue() -> Seq<(Seq<char>, Seq<char>)> {
    seq![
        ("duplicate"@, "Byte-identical files within one repository (redundant copies)."@),
        (
            "near-duplicate"@,
            "Highly similar (but not identical) files — likely divergent copies."@,
        ),
        (
            "clone-function"@,
            "A function body copy-pasted across files (Type-1/2 clone)."@,
        ),
        ("empty-dir"@, "A directory with no tracked files (dead structure)."@),
        (
            "dead-code"@,
            "A symbol unreachable from the public API, `main`, tests, or a trait impl."@,
        ),
        ("misplaced"@, "A file used exclusively from one other directory — belongs there."@),
        (
            "structure-cycle"@,
            "A dependency cycle in the real code graph (mutually-entangled modules)."@,
        ),
        (
            "tree-invariant"@,
            "A structural invariant of the capability tree is violated."@,
        ),
        (
            "leanness-ratchet"@,
            "A leanness metric regressed past its committed baseline."@,
        ),
    ]
}

/// The rules that the analyses report, each with its description.
pub fn rules() -> (r: Vec<(String, String)>)
    ensures
        crate::order::pair_views(r@) == catalogue(),
{
    let mut r: Vec<(String, String)> = Vec::new();
    add_rule(
        &mut r,
        "duplicate",
        "Byte-identical files within one repository (redundant copies).",
    );
    add_rule(
        &mut r,
        "near-duplicate",
        "Highly similar (but not identical) files — likely divergent copies.",
    );
    add_rule(
        &mut r,
        "clone-function",
        "A function body copy-pasted across files (Type-1/2 clone).",
    );
    add_rule(&mut r, "empty-dir", "A directory with no tracked files (dead structure).");
    add_rule(
        &mut r,
        "dead-code",
        "A symbol unreachable from the public API, `main`, tests, or a trait impl.",
    );
    add_rule(
        &mut r,
        "misplaced",
        "A file used exclusively from one other directory — belongs there.",
    );
    add_rule(
        &mut r,
        "structure-cycle",
        "A dependency cycle in the real code graph (mutually-entangled modules).",
    );
    add_rule(
        &mut r,
        "tree-invariant",
        "A structural invariant of the capability tree is violated.",
    );
    add_rule(
        &mut r,
        "leanness-ratchet",
        "A leanness metric regressed past its committed baseline.",
    );
    assert(crate::order::pair_views(r@) =~= catalogue());
    r
}

fn add_rule(r: &mut Vec<(String, String)>, id: &str, text: &str)
    ensures
        crate::order::pair_views(final(r)@) == crate::order::pair_views(old(r)@).push((id@, text@)),
{
    let ghost before = r@;
    r.push((id.to_owned(), text.to_owned()));
    assert(crate::order::pair_views(r@) =~= crate::order::pair_views(before).push((id@, text@)));
}

// ── reports ────────────────────────────────────────────────────────────────────────────

/// Findings, ready to be shown.
#[derive(Debug, Clone)]
pub struct Report {
    pub tool_version: String,
    pub findings: Vec<Finding>,
}

/// How many of the first `n` findings have a severity.
pub open spec fn tally(fs: Seq<Finding>, s: Severity, n: int) -> nat
    decreases n,
{
    if n <= 0 {
        0
    } else {
        tally(fs, s, n - 1) + (if fs[n - 1].severity == s {
            1nat
        } else {
            0nat
        })
    }
}

/// The line that shows a related place.
pub open spec fn related_text(ls: Seq<LocationView>) -> spec_fn(int) -> Seq<char> {
    |i: int| "      ↔ "@ + place_text(ls[i]) + "\n"@
}

/// The lines that show a finding.
pub open spec fn finding_text(f: FindingView) -> Seq<char> {
    glyph_of(f.severity) + " ["@ + f.rule + "] "@ + place_text(f.location) + " — "@ + f.message
        + "\n"@ + gather(f.related.len() as int, related_text(f.related)) + (match f.fix {
        Some(fix) => "      ↳ fix: "@ + fix + "\n"@,
        None => seq![],
    })
}

/// The lines that show findings, by position.
pub open spec fn finding_texts(fs: Seq<FindingView>) -> spec_fn(int) -> Seq<char> {
    |i: int| finding_text(fs[i])
}

/// A place in JSON.
pub open spec fn location_json(l: LocationView) -> Seq<char> {
    "{\"file\":"@ + json_string(l.file) + (match l.line {
        Some(n) => ",\"line\":"@ + dec(n as nat),
        None => seq![],
    }) + "}"@
}

/// A finding in JSON.
pub open spec fn finding_json(f: FindingView) -> Seq<char> {
    "{\"rule\":"@ + json_string(f.rule) + ",\"severity\":"@ + json_string(
        severity_name(f.severity),
    ) + ",\"message\":"@ + json_string(f.message) + ",\"location\":"@ + location_json(f.location)
        + (if f.related.len() > 0 {
        ",\"related\":"@ + json_list(f.related.map_values(|l: LocationView| location_json(l)))
    } else {
        seq![]
    }) + (match f.fix {
        Some(fix) => ",\"fix\":"@ + json_string(fix),
        None => seq![],
    }) + "}"@
}

/// The message of a finding with its fix behind it.
pub open spec fn full_message(f: FindingView) -> Seq<char> {
    match f.fix {
        Some(fix) => f.message + " (fix: "@ + fix + ")"@,
        None => f.message,
    }
}

/// A line number of SARIF, which counts from 1.
pub open spec fn start_line(n: u32) -> nat {
    if n == 0 {
        1
    } else {
        n as nat
    }
}

/// A place of a finding in SARIF.
pub open spec fn physical_json(l: LocationView) -> Seq<char> {
    "{\"artifactLocation\":{\"uri\":"@ + json_string(l.file) + "}"@ + (match l.line {
        Some(n) => ",\"region\":{\"startLine\":"@ + dec(start_line(n)) + "}"@,
        None => seq![],
    }) + "}"@
}

/// A related place in SARIF.
pub open spec fn related_json(l: LocationView) -> Seq<char> {
    "{\"physicalLocation\":{\"artifactLocation\":{\"uri\":"@ + json_string(l.file) + "}}}"@
}

/// A finding in SARIF.
pub open spec fn result_json(f: FindingView) -> Seq<char> {
    "{\"ruleId\":"@ + json_string(f.rule) + ",\"level\":"@ + json_string(level_of(f.severity))
        + ",\"message\":{\"text\":"@ + json_string(full_message(f))
        + "},\"locations\":[{\"physicalLocation\":"@ + physical_json(f.location) + "}]"@ + (
    if f.related.len() > 0 {
        ",\"relatedLocations\":"@ + json_list(
            f.related.map_values(|l: LocationView| related_json(l)),
        )
    } else {
        seq![]
    }) + "}"@
}

/// A rule in SARIF.
pub open spec fn rule_json(r: (Seq<char>, Seq<char>)) -> Seq<char> {
    "{\"id\":"@ + json_string(r.0) + ",\"shortDescription\":{\"text\":"@ + json_string(r.1) + "}}"@
}

/// Findings as a JSON document.
pub open spec fn findings_document(version: Seq<char>, fs: Seq<FindingView>) -> Seq<char> {
    "{\"tool\":\"bonsai\",\"version\":"@ + json_string(version) + ",\"findings\":"@ + json_list(
        fs.map_values(|f: FindingView| finding_json(f)),
    ) + "}"@
}

/// Findings as a SARIF document.
pub open spec fn sarif_document(version: Seq<char>, fs: Seq<FindingView>) -> Seq<char> {
    "{\"$schema\":\"https://json.schemastore.org/sarif-2.1.0.json\",\"version\":\"2.1.0\",\"runs\":[{\"tool\":{\"driver\":{\"name\":\"bonsai\",\"version\":"@
        + json_string(version)
        + ",\"informationUri\":\"https://github.com/QuiteTall/bonsai\",\"rules\":"@ + json_list(
        catalogue().map_values(|r: (Seq<char>, Seq<char>)| rule_json(r)),
    ) + "}},\"results\":"@ + json_list(fs.map_values(|f: FindingView| result_json(f))) + "}]}"@
}

/// A JSON text laid out over several lines; nothing where the text is not JSON.
pub uninterp spec fn laid_out(text: Seq<char>) -> Option<Seq<char>>;

/// `serde_json::from_str` reads the text as a JSON value, and `serde_json::to_string_pretty`
/// writes that value over several lines; nothing comes back where either refuses. What comes
/// back depends on the text alone.
#[verifier::external_body]
fn lay_out(text: &str) -> (r: Option<String>)
    ensures
        text_opt(r) == laid_out(text@),
{
    let value: serde_json::Value = serde_json::from_str(text).ok()?;
    serde_json::to_string_pretty(&value).ok()
}

/// The text of a laid-out document, or an empty object.
pub open spec fn document_or_empty(laid: Option<Seq<char>>) -> Seq<char> {
    match laid {
        Some(s) => s,
        None => "{}"@,
    }
}

/// The text of a laid-out document, or an empty object.
pub fn shown_document(laid: Option<String>) -> (r: String)
    ensures
        r@ == document_or_empty(text_opt(laid)),
{
    match laid {
        Some(s) => s,
        None => "{}".to_owned(),
    }
}

fn write_location(l: &Location) -> (r: String)
    ensures
        r@ == location_json(l@),
{
    let mut r = cat2("{\"file\":", quote(l.file.as_str()).as_str());
    let ghost head = r@;
    match l.line {
        Some(n) => {
            let tail = cat2(",\"line\":", decimal(n as u64).as_str());
            r.append(tail.as_str());
        },
        None => {
            assert(head =~= head + Seq::<char>::empty());
        },
    }
    r.append("}");
    r
}

fn write_locations(v: &Vec<Location>) -> (r: String)
    ensures
        r@ == json_list(location_views(v@).map_values(|l: LocationView| location_json(l))),
{
    let ghost goal = location_views(v@).map_values(|l: LocationView| location_json(l));
    let mut out: Vec<String> = Vec::new();
    let mut i: usize = 0;
    while i < v.len()
        invariant
            i <= v.len(),
            goal == location_views(v@).map_values(|l: LocationView| location_json(l)),
            texts(out@) =~= goal.take(i as int),
        decreases v.len() - i,
    {
        put(&mut out, write_location(&v[i]));
        assert(goal.take(i + 1) =~= goal.take(i as int).push(goal[i as int]));
        i += 1;
    }
    assert(goal.take(goal.len() as int) =~= goal);
    list(&out)
}

fn write_related(v: &Vec<Location>) -> (r: String)
    ensures
        r@ == json_list(location_views(v@).map_values(|l: LocationView| related_json(l))),
{
    let ghost goal = location_views(v@).map_values(|l: LocationView| related_json(l));
    let mut out: Vec<String> = Vec::new();
    let mut i: usize = 0;
    while i < v.len()
        invariant
            i <= v.len(),
            goal == location_views(v@).map_values(|l: LocationView| related_json(l)),
            texts(out@) =~= goal.take(i as int),
        decreases v.len() - i,
    {
        put(
            &mut out,
            cat3(
                "{\"physicalLocation\":{\"artifactLocation\":{\"uri\":",
                quote(v[i].file.as_str()).as_str(),
                "}}}",
            ),
        );
        assert(goal.take(i + 1) =~= goal.take(i as int).push(goal[i as int]));
        i += 1;
    }
    assert(goal.take(goal.len() as int) =~= goal);
    list(&out)
}

fn write_finding(f: &Finding) -> (r: String)
    ensures
        r@ == finding_json(f@),
{
    let mut r = cat7(
        "{\"rule\":",
        quote(f.rule.as_str()).as_str(),
        ",\"severity\":",
        quote(f.severity.name()).as_str(),
        ",\"message\":",
        quote(f.message.as_str()).as_str(),
        ",\"location\":",
    );
    r.append(write_location(&f.location).as_str());
    let ghost a = r@;
    if f.related.len() > 0 {
        r.append(cat2(",\"related\":", write_locations(&f.related).as_str()).as_str());
    } else {
        assert(a =~= a + Seq::<char>::empty());
    }
    let ghost b = r@;
    match &f.fix {
        Some(fix) => {
            r.append(cat2(",\"fix\":", quote(fix.as_str()).as_str()).as_str());
        },
        None => {
            assert(b =~= b + Seq::<char>::empty());
        },
    }
    r.append("}");
    r
}

fn write_message(f: &Finding) -> (r: String)
    ensures
        r@ == full_message(f@),
{
    match &f.fix {
        Some(fix) => cat4(f.message.as_str(), " (fix: ", fix.as_str(), ")"),
        None => f.message.clone(),
    }
}

fn write_physical(l: &Location) -> (r: String)
    ensures
        r@ == physical_json(l@),
{
    let mut r = cat3("{\"artifactLocation\":{\"uri\":", quote(l.file.as_str()).as_str(), "}");
    let ghost a = r@;
    match l.line {
        Some(n) => {
            let m: u64 = if n == 0 {
                1
            } else {
                n as u64
            };
            let tail = cat3(",\"region\":{\"startLine\":", decimal(m).as_str(), "}");
            r.append(tail.as_str());
        },
        None => {
            assert(a =~= a + Seq::<char>::empty());
        },
    }
    r.append("}");
    r
}

fn write_result(f: &Finding) -> (r: String)
    ensures
        r@ == result_json(f@),
{
    let mut r = cat7(
        "{\"ruleId\":",
        quote(f.rule.as_str()).as_str(),
        ",\"level\":",
        quote(f.severity.sarif_level()).as_str(),
        ",\"message\":{\"text\":",
        quote(write_message(f).as_str()).as_str(),
        "},\"locations\":[{\"physicalLocation\":",
    );
    r.append(write_physical(&f.location).as_str());
    r.append("}]");
    let ghost a = r@;
    if f.related.len() > 0 {
        r.append(cat2(",\"relatedLocations\":", write_related(&f.related).as_str()).as_str());
    } else {
        assert(a =~= a + Seq::<char>::empty());
    }
    r.append("}");
    r
}

fn write_rules() -> (r: String)
    ensures
        r@ == json_list(catalogue().map_values(|r: (Seq<char>, Seq<char>)| rule_json(r))),
{
    let all = rules();
    let ghost goal = catalogue().map_values(|r: (Seq<char>, Seq<char>)| rule_json(r));
    let mut out: Vec<String> = Vec::new();
    let mut i: usize = 0;
    while i < all.len()
        invariant
            i <= all.len(),
            crate::order::pair_views(all@) == catalogue(),
            goal == catalogue().map_values(|r: (Seq<char>, Seq<char>)| rule_json(r)),
            texts(out@) =~= goal.take(i as int),
        decreases all.len() - i,
    {
        assert(catalogue()[i as int] == crate::order::pair_views(all@)[i as int]);
        assert(catalogue().len() == all@.len());
        put(
            &mut out,
            cat5(
                "{\"id\":",
                quote(all[i].0.as_str()).as_str(),
                ",\"shortDescription\":{\"text\":",
                quote(all[i].1.as_str()).as_str(),
                "}}",
            ),
        );
        assert(goal.take(i + 1) =~= goal.take(i as int).push(goal[i as int]));
        i += 1;
    }
    assert(crate::order::pair_views(all@).len() == all@.len());
    assert(goal.take(goal.len() as int) =~= goal);
    list(&out)
}

impl Report {
    /// A report of this version of the tool.
    pub fn new(findings: Vec<Finding>) -> (r: Report)
        ensures
            r.tool_version@ == VERSION@,
            r.findings == findings,
    {
        Report { tool_version: VERSION.to_owned(), findings }
    }

    /// Whether some finding is an error.
    pub fn has_errors(&self) -> (r: bool)
        ensures
            r == exists|i: int|
                0 <= i < self.findings@.len() && (#[trigger] self.findings@[i]).severity
                    == Severity::Error,
    {
        let mut i: usize = 0;
        while i < self.findings.len()
            invariant
                i <= self.findings.len(),
                forall|k: int|
                    0 <= k < i ==> (#[trigger] self.findings@[k]).severity != Severity::Error,
            decreases self.findings.len() - i,
        {
            if self.findings[i].severity == Severity::Error {
                return true;
            }
            i += 1;
        }
        false
    }

    /// How many errors, warnings and notes there are.
    pub fn counts(&self) -> (r: (usize, usize, usize))
        ensures
            r.0 == tally(self.findings@, Severity::Error, self.findings@.len() as int),
            r.1 == tally(self.findings@, Severity::Warning, self.findings@.len() as int),
            r.2 == tally(self.findings@, Severity::Info, self.findings@.len() as int),
    {
        let mut e: usize = 0;
        let mut w: usize = 0;
        let mut n: usize = 0;
        let mut i: usize = 0;
        while i < self.findings.len()
            invariant
                i <= self.findings.len(),
                e == tally(self.findings@, Severity::Error, i as int),
                w == tally(self.findings@, Severity::Warning, i as int),
                n == tally(self.findings@, Severity::Info, i as int),
                e <= i,
                w <= i,
                n <= i,
            decreases self.findings.len() - i,
        {
            match self.findings[i].severity {
                Severity::Error => {
                    e += 1;
                },
                Severity::Warning => {
                    w += 1;
                },
                Severity::Info => {
                    n += 1;
                },
            }
            i += 1;
        }
        (e, w, n)
    }

    fn write_text(f: &Finding) -> (r: String)
        ensures
            r@ == finding_text(f@),
    {
        let mut r = cat7(
            f.severity.glyph(),
            " [",
            f.rule.as_str(),
            "] ",
            f.location.render().as_str(),
            " — ",
            f.message.as_str(),
        );
        r.append("\n");
        let ghost head = r@;
        let ghost ls = location_views(f.related@);
        let mut i: usize = 0;
        while i < f.related.len()
            invariant
                i <= f.related.len(),
                ls == location_views(f.related@),
                r@ =~= head + gather(i as int, related_text(ls)),
            decreases f.related.len() - i,
        {
            assert(ls[i as int] == f.related@[i as int]@);
            r.append(cat3("      ↔ ", f.related[i].render().as_str(), "\n").as_str());
            i += 1;
        }
        let ghost b = r@;
        match &f.fix {
            Some(fix) => {
                r.append(cat3("      ↳ fix: ", fix.as_str(), "\n").as_str());
            },
            None => {
                assert(b =~= b + Seq::<char>::empty());
            },
        }
        r
    }

    /// Shows the findings as text: a line for each, its related places and its fix below it, and
    /// the counts.
    pub fn to_text(&self) -> (r: String)
        ensures
            r@ == gather(
                self.findings@.len() as int,
                finding_texts(finding_views(self.findings@)),
            ) + "\n"@ + dec(
                tally(self.findings@, Severity::Error, self.findings@.len() as int),
            ) + " error(s), "@ + dec(
                tally(self.findings@, Severity::Warning, self.findings@.len() as int),
            ) + " warning(s), "@ + dec(
                tally(self.findings@, Severity::Info, self.findings@.len() as int),
            ) + " info\n"@,
    {
        let ghost fs = finding_views(self.findings@);
        let mut out = String::new();
        let mut i: usize = 0;
        while i < self.findings.len()
            invariant
                i <= self.findings.len(),
                fs == finding_views(self.findings@),
                out@ =~= gather(i as int, finding_texts(fs)),
            decreases self.findings.len() - i,
        {
            assert(fs[i as int] == self.findings@[i as int]@);
            out.append(Report::write_text(&self.findings[i]).as_str());
            i += 1;
        }
        let (e, w, n) = self.counts();
        out.append("\n");
        out.append(decimal_usize(e).as_str());
        out.append(" error(s), ");
        out.append(decimal_usize(w).as_str());
        out.append(" warning(s), ");
        out.append(decimal_usize(n).as_str());
        out.append(" info\n");
        out
    }

    /// The findings as a JSON document on one line.
    pub fn json_line(&self) -> (r: String)
        ensures
            r@ == findings_document(self.tool_version@, finding_views(self.findings@)),
    {
        let ghost goal = finding_views(self.findings@).map_values(|f: FindingView| finding_json(f));
        let mut out: Vec<String> = Vec::new();
        let mut i: usize = 0;
        while i < self.findings.len()
            invariant
                i <= self.findings.len(),
                goal == finding_views(self.findings@).map_values(|f: FindingView| finding_json(f)),
                texts(out@) =~= goal.take(i as int),
            decreases self.findings.len() - i,
        {
            put(&mut out, write_finding(&self.findings[i]));
            assert(goal.take(i + 1) =~= goal.take(i as int).push(goal[i as int]));
            i += 1;
        }
        assert(goal.take(goal.len() as int) =~= goal);
        cat5(
            "{\"tool\":\"bonsai\",\"version\":",
            quote(self.tool_version.as_str()).as_str(),
            ",\"findings\":",
            list(&out).as_str(),
            "}",
        )
    }

    /// The findings as a JSON document.
    pub fn to_json(&self) -> (r: String)
        ensures
            r@ == document_or_empty(
                laid_out(findings_document(self.tool_version@, finding_views(self.findings@))),
            ),
    {
        shown_document(lay_out(self.json_line().as_str()))
    }

    /// The findings as a SARIF document on one line.
    pub fn sarif_line(&self) -> (r: String)
        ensures
            r@ == sarif_document(self.tool_version@, finding_views(self.findings@)),
    {
        let ghost goal = finding_views(self.findings@).map_values(|f: FindingView| result_json(f));
        let mut out: Vec<String> = Vec::new();
        let mut i: usize = 0;
        while i < self.findings.len()
            invariant
                i <= self.findings.len(),
                goal == finding_views(self.findings@).map_values(|f: FindingView| result_json(f)),
                texts(out@) =~= goal.take(i as int),
            decreases self.findings.len() - i,
        {
            put(&mut out, write_result(&self.findings[i]));
            assert(goal.take(i + 1) =~= goal.take(i as int).push(goal[i as int]));
            i += 1;
        }
        assert(goal.take(goal.len() as int) =~= goal);
        cat7(
            "{\"$schema\":\"https://json.schemastore.org/sarif-2.1.0.json\",\"version\":\"2.1.0\",\"runs\":[{\"tool\":{\"driver\":{\"name\":\"bonsai\",\"version\":",
            quote(self.tool_version.as_str()).as_str(),
            ",\"informationUri\":\"https://github.com/QuiteTall/bonsai\",\"rules\":",
            write_rules().as_str(),
            "}},\"results\":",
            list(&out).as_str(),
            "}]}",
        )
    }

    /// The findings as a SARIF document.
    pub fn to_sarif(&self) -> (r: String)
        ensures
            r@ == document_or_empty(
                laid_out(sarif_document(self.tool_version@, finding_views(self.findings@))),
            ),
    {
        shown_document(lay_out(self.sarif_line().as_str()))
    }
}

proof fn tally_counts(fs: Seq<Finding>, s: Severity, n: int)
    requires
        0 <= n <= fs.len(),
    ensures
        tally(fs, s, n) > 0 <==> exists|i: int| 0 <= i < n && (#[trigger] fs[i]).severity == s,
    decreases n,
{
    if n > 0 {
        tally_counts(fs, s, n - 1);
        if fs[n - 1].severity == s {
            assert(0 <= n - 1 < n && fs[n - 1].severity == s);
        }
    }
}

/// What a report counts and what it says agree: it has errors if and only if it counts one, and
/// every finding is counted once.
pub proof fn counts_are_complete(fs: Seq<Finding>)
    ensures
        tally(fs, Severity::Error, fs.len() as int) > 0 <==> exists|i: int|
            0 <= i < fs.len() && (#[trigger] fs[i]).severity == Severity::Error,
        tally(fs, Severity::Error, fs.len() as int) + tally(fs, Severity::Warning, fs.len() as int)
            + tally(fs, Severity::Info, fs.len() as int) == fs.len(),
{
    tally_counts(fs, Severity::Error, fs.len() as int);
    tally_sums(fs, fs.len() as int);
}

proof fn tally_sums(fs: Seq<Finding>, n: int)
    requires
        0 <= n <= fs.len(),
    ensures
        tally(fs, Severity::Error, n) + tally(fs, Severity::Warning, n) + tally(
            fs,
            Severity::Info,
            n,
        ) == n,
    decreases n,
{
    if n > 0 {
        tally_sums(fs, n - 1);
    }
}

} // verus!
