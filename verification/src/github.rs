//! Compliance of a repository on GitHub: a small policy, what is observed of the repository,
//! and the verdict. What could not be observed is unknown, and never counts as compliance.
use vstd::prelude::*;

use crate::order::{sort_dedup, sorted_set};
use crate::text::{
    ascii_alphanumeric, behind, cat2, cat3, cat4, cat5, chars, concat_contains, cut, ends,
    ends_with, gather, holds, is_ascii_alphanumeric, join, joined, lines, lines_of, parts, put,
    same, same_list, same_opt, split, split_once, strip_prefix, text_opt, texts, trim, trim_end,
    trimmed, trimmed_end,
};
use crate::value::{
    all_items, as_count, as_list, as_number, as_text, count_of, field, field_below, get_below,
    is_true, items_of, lends, number_of, text_is, text_of, truth_of, Json,
};

verus! {

pub const STANDARD_PROFILE: &'static str = "standard-v1";

pub const GOVERNED_PROFILE: &'static str = "governed-v1";

pub const RULESET_NAME: &'static str = "bonsai-standard-v1";

pub const REQUIRED_CHECK: &'static str = "bonsai compliance";

pub const CANONICAL_SOURCE: &'static str = "github:Quitetall/bonsai";

pub const CANONICAL_REVISION: &'static str = "97c29b5a1994a727ed566b556c26165b3f80c11d";

/// The schema that reports declare.
pub const REPORT_SCHEMA: &'static str = "oh.bonsai/github-compliance/v1";

// ── the policy ─────────────────────────────────────────────────────────────────────────

/// The profile that a repository is held to.
#[derive(Debug, Clone, Copy, PartialEq, Eq, Structural)]
pub enum Profile {
    StandardV1,
    GovernedV1,
}

/// The name of a profile.
pub open spec fn profile_name(p: Profile) -> Seq<char> {
    match p {
        Profile::StandardV1 => STANDARD_PROFILE@,
        Profile::GovernedV1 => GOVERNED_PROFILE@,
    }
}

impl Profile {
    /// The profile with a name; for another name the message that says which there are.
    pub fn parse(value: &str) -> (r: Result<Profile, String>)
        ensures
            match r {
                Ok(p) => value@ == profile_name(p) && (value@ == STANDARD_PROFILE@ ==> p
                    == Profile::StandardV1),
                Err(e) => value@ != STANDARD_PROFILE@ && value@ != GOVERNED_PROFILE@ && e@
                    == "unsupported GitHub compliance profile '"@ + value@ + "'; expected "@
                    + STANDARD_PROFILE@ + " or "@ + GOVERNED_PROFILE@,
            },
    {
        if same(value, STANDARD_PROFILE) {
            Ok(Profile::StandardV1)
        } else if same(value, GOVERNED_PROFILE) {
            Ok(Profile::GovernedV1)
        } else {
            let mut e = cat5(
                "unsupported GitHub compliance profile '",
                value,
                "'; expected ",
                STANDARD_PROFILE,
                " or ",
            );
            e.append(GOVERNED_PROFILE);
            Err(e)
        }
    }

    /// The name of the profile.
    pub fn as_str(self) -> (r: &'static str)
        ensures
            r@ == profile_name(self),
    {
        match self {
            Profile::StandardV1 => STANDARD_PROFILE,
            Profile::GovernedV1 => GOVERNED_PROFILE,
        }
    }
}

/// What a repository is held to.
#[derive(Debug, Clone, PartialEq, Eq)]
pub struct GithubPolicy {
    pub profile: Profile,
    pub repository: String,
    pub default_branch: Option<String>,
    pub bonsai_source: String,
    pub bonsai_revision: String,
    /// Users and teams that are named explicitly.
    pub codeowners: Vec<String>,
}

/// What is wrong with a policy.
#[derive(Debug, Clone, Copy, PartialEq, Eq, Structural)]
pub enum PolicyFault {
    /// The repository is not an owner and a name.
    Repository,
    /// A code owner is neither a user nor a team.
    Codeowners,
    /// The source is not the canonical one.
    Source,
    /// The revision is not a full commit hash.
    Revision,
}

/// Whether every character may stand in a name on GitHub, and there is one.
pub open spec fn name_component(s: Seq<char>) -> bool {
    s.len() > 0 && forall|i: int|
        0 <= i < s.len() ==> {
            let c = #[trigger] s[i];
            ascii_alphanumeric(c) || c == '.' || c == '-' || c == '_'
        }
}

/// Whether a text is a user or a team: an at sign, and names with slashes between them.
pub open spec fn codeowner(s: Seq<char>) -> bool {
    match behind(s, "@"@) {
        Some(rest) => name_components(parts(rest, '/')),
        None => false,
    }
}

/// Whether every one of several texts may be a name on GitHub.
pub open spec fn name_components(ps: Seq<Seq<char>>) -> bool {
    forall|i: int| 0 <= i < ps.len() ==> name_component(#[trigger] ps[i])
}

/// Whether a text is the owner and the name of a repository.
pub open spec fn repository_name(s: Seq<char>) -> bool {
    match cut(s, "/"@) {
        Some((owner, repo)) => name_component(owner) && name_component(repo),
        None => false,
    }
}

/// Whether a text is a full commit hash: 40 hexadecimal digits.
pub open spec fn commit_hash(s: Seq<char>) -> bool {
    s.len() == 40 && forall|i: int|
        0 <= i < s.len() ==> {
            let c = #[trigger] s[i];
            ('0' <= c <= '9') || ('a' <= c <= 'f') || ('A' <= c <= 'F')
        }
}

impl GithubPolicy {
    /// The first thing that is wrong with the policy.
    pub open spec fn fault(self) -> Option<PolicyFault> {
        if !repository_name(self.repository@) {
            Some(PolicyFault::Repository)
        } else if exists|i: int|
            0 <= i < self.codeowners@.len() && !codeowner(#[trigger] self.codeowners@[i]@) {
            Some(PolicyFault::Codeowners)
        } else if self.bonsai_source@ != CANONICAL_SOURCE@ {
            Some(PolicyFault::Source)
        } else if !commit_hash(self.bonsai_revision@) {
            Some(PolicyFault::Revision)
        } else {
            None
        }
    }

    /// The standard policy for a repository.
    pub fn standard(repository: String) -> (r: GithubPolicy)
        ensures
            r.profile == Profile::StandardV1,
            r.repository == repository,
            r.default_branch is None,
            r.bonsai_source@ == CANONICAL_SOURCE@,
            r.bonsai_revision@ == CANONICAL_REVISION@,
            r.codeowners@.len() == 0,
    {
        GithubPolicy {
            profile: Profile::StandardV1,
            repository,
            default_branch: None,
            bonsai_source: CANONICAL_SOURCE.to_owned(),
            bonsai_revision: CANONICAL_REVISION.to_owned(),
            codeowners: Vec::new(),
        }
    }

    /// Refuses a policy with something wrong.
    pub fn validate(&self) -> (r: Result<(), PolicyFault>)
        ensures
            match r {
                Ok(_) => self.fault() is None,
                Err(e) => self.fault() == Some(e),
            },
    {
        if !is_repository(self.repository.as_str()) {
            return Err(PolicyFault::Repository);
        }
        let mut i: usize = 0;
        while i < self.codeowners.len()
            invariant
                i <= self.codeowners.len(),
                repository_name(self.repository@),
                forall|k: int| 0 <= k < i ==> codeowner(#[trigger] self.codeowners@[k]@),
            decreases self.codeowners.len() - i,
        {
            if !is_codeowner(self.codeowners[i].as_str()) {
                assert(!codeowner(self.codeowners@[i as int]@));
                return Err(PolicyFault::Codeowners);
            }
            i += 1;
        }
        if !same(self.bonsai_source.as_str(), CANONICAL_SOURCE) {
            return Err(PolicyFault::Source);
        }
        if !is_commit_hash(self.bonsai_revision.as_str()) {
            return Err(PolicyFault::Revision);
        }
        Ok(())
    }

    /// What two policies say is the same.
    pub open spec fn agrees(self, other: GithubPolicy) -> bool {
        &&& self.profile == other.profile
        &&& self.repository@ == other.repository@
        &&& text_opt(self.default_branch) == text_opt(other.default_branch)
        &&& self.bonsai_source@ == other.bonsai_source@
        &&& self.bonsai_revision@ == other.bonsai_revision@
        &&& texts(self.codeowners@) == texts(other.codeowners@)
    }
}

impl PolicyFault {
    /// What is said of the fault.
    pub open spec fn words(self) -> Seq<char> {
        match self {
            PolicyFault::Repository => "github.repository must be owner/repo"@,
            PolicyFault::Codeowners =>
                "github.codeowners must contain GitHub @user or @organization/team principals"@,
            PolicyFault::Source => "github.bonsai_source must be canonical public source "@
                + CANONICAL_SOURCE@,
            PolicyFault::Revision => "github.bonsai_revision must be a full 40-character commit SHA"@,
        }
    }

    /// The fault in words.
    pub fn message(self) -> (r: String)
        ensures
            r@ == self.words(),
    {
        match self {
            PolicyFault::Repository => "github.repository must be owner/repo".to_owned(),
            PolicyFault::Codeowners =>
                "github.codeowners must contain GitHub @user or @organization/team principals".to_owned(),
            PolicyFault::Source => cat2(
                "github.bonsai_source must be canonical public source ",
                CANONICAL_SOURCE,
            ),
            PolicyFault::Revision =>
                "github.bonsai_revision must be a full 40-character commit SHA".to_owned(),
        }
    }
}

fn is_name_component(s: &str) -> (r: bool)
    ensures
        r == name_component(s@),
{
    let a = chars(s);
    if a.len() == 0 {
        return false;
    }
    let mut i: usize = 0;
    while i < a.len()
        invariant
            i <= a.len(),
            a@ == s@,
            forall|j: int|
                0 <= j < i ==> {
                    let c = #[trigger] s@[j];
                    ascii_alphanumeric(c) || c == '.' || c == '-' || c == '_'
                },
        decreases a.len() - i,
    {
        let c = a[i];
        if !(is_ascii_alphanumeric(c) || c == '.' || c == '-' || c == '_') {
            assert(s@[i as int] == c);
            return false;
        }
        i += 1;
    }
    true
}

fn is_codeowner(s: &str) -> (r: bool)
    ensures
        r == codeowner(s@),
{
    match strip_prefix(s, "@") {
        Some(rest) => are_name_components(&split(rest.as_str(), '/')),
        None => false,
    }
}

fn are_name_components(ps: &Vec<String>) -> (r: bool)
    ensures
        r == name_components(texts(ps@)),
{
    let mut i: usize = 0;
    while i < ps.len()
        invariant
            i <= ps.len(),
            forall|k: int| 0 <= k < i ==> name_component(#[trigger] texts(ps@)[k]),
        decreases ps.len() - i,
    {
        assert(texts(ps@)[i as int] == ps@[i as int]@);
        if !is_name_component(ps[i].as_str()) {
            return false;
        }
        i += 1;
    }
    true
}

fn is_repository(s: &str) -> (r: bool)
    ensures
        r == repository_name(s@),
{
    match split_once(s, "/") {
        Some((owner, repo)) => is_name_component(owner.as_str()) && is_name_component(
            repo.as_str(),
        ),
        None => false,
    }
}

fn is_commit_hash(s: &str) -> (r: bool)
    ensures
        r == commit_hash(s@),
{
    let a = chars(s);
    if a.len() != 40 {
        return false;
    }
    let mut i: usize = 0;
    while i < a.len()
        invariant
            i <= a.len(),
            a@ == s@,
            forall|j: int|
                0 <= j < i ==> {
                    let c = #[trigger] s@[j];
                    ('0' <= c <= '9') || ('a' <= c <= 'f') || ('A' <= c <= 'F')
                },
        decreases a.len() - i,
    {
        let c = a[i];
        let digit = '0' <= c && c <= '9';
        let small = 'a' <= c && c <= 'f';
        let capital = 'A' <= c && c <= 'F';
        if !(digit || small || capital) {
            assert(s@[i as int] == c);
            return false;
        }
        i += 1;
    }
    true
}

/// The drift that a candidate policy shows against the trusted one; a candidate that could not
/// be read as a policy drifts too.
pub fn policy_drift(candidate: &Option<GithubPolicy>, policy: &GithubPolicy) -> (r: Option<String>)
    ensures
        text_opt(r) == (match *candidate {
            Some(c) => if c.agrees(*policy) {
                None
            } else {
                Some("github-policy-drift"@)
            },
            None => Some("github-policy-drift"@),
        }),
{
    let agrees = match candidate {
        Some(c) => c.profile == policy.profile && same(
            c.repository.as_str(),
            policy.repository.as_str(),
        ) && same_opt(&c.default_branch, &policy.default_branch) && same(
            c.bonsai_source.as_str(),
            policy.bonsai_source.as_str(),
        ) && same(c.bonsai_revision.as_str(), policy.bonsai_revision.as_str()) && same_list(
            &c.codeowners,
            &policy.codeowners,
        ),
        None => false,
    };
    if agrees {
        None
    } else {
        Some("github-policy-drift".to_owned())
    }
}

// ── observations ───────────────────────────────────────────────────────────────────────

/// What is observed of a ruleset.
#[derive(Debug, Clone, PartialEq, Eq)]
pub struct RulesetObservation {
    pub name: String,
    pub enforcement: String,
    pub targets_default_branch: bool,
    pub bypass_actors: usize,
    pub blocks_deletion: bool,
    pub blocks_non_fast_forward: bool,
    pub pull_request_required: bool,
    pub approvals: u32,
    pub dismisses_stale_reviews: bool,
    pub resolves_threads: bool,
    pub extra_approval_for_unattributed_changes: bool,
    pub strict_required_checks: bool,
    pub required_checks: Vec<String>,
}

/// What is observed of a repository; what could not be seen is `None`.
#[derive(Debug, Clone, PartialEq, Eq)]
pub struct Observation {
    pub repository: String,
    pub default_branch: String,
    pub actions_enabled: bool,
    pub sha_pinning_required: bool,
    pub dependabot_security_updates: Option<bool>,
    pub secret_scanning: Option<bool>,
    pub push_protection: Option<bool>,
    /// Whether every detail was shown that is needed to see that nobody is let past a ruleset.
    pub ruleset_visibility_complete: bool,
    pub rulesets: Vec<RulesetObservation>,
}

/// The verdict on a repository.
#[derive(Debug, Clone, Copy, PartialEq, Eq, Structural)]
pub enum Verdict {
    Pass,
    Fail,
    Unknown,
}

/// The verdict, and the rules that stand against the repository.
#[derive(Debug, Clone, PartialEq, Eq)]
pub struct ComplianceReport {
    pub schema: String,
    pub profile: String,
    pub repository: String,
    pub default_branch: String,
    pub verdict: Verdict,
    pub rules: Vec<String>,
}

/// Whether some rule says that something is unknown.
pub open spec fn any_unknown(rules: Seq<Seq<char>>) -> bool {
    exists|i: int| 0 <= i < rules.len() && ends(#[trigger] rules[i], "-unknown"@)
}

/// The verdict that rules come to: unknown where one of them says so, pass where there is none.
pub open spec fn verdict_of(rules: Seq<Seq<char>>) -> Verdict {
    if any_unknown(rules) {
        Verdict::Unknown
    } else if rules.len() == 0 {
        Verdict::Pass
    } else {
        Verdict::Fail
    }
}

impl ComplianceReport {
    /// Whether the repository complies.
    pub fn is_pass(&self) -> (r: bool)
        ensures
            r == (self.verdict == Verdict::Pass),
    {
        self.verdict == Verdict::Pass
    }

    /// Whether something could not be observed.
    pub fn is_unknown(&self) -> (r: bool)
        ensures
            r == (self.verdict == Verdict::Unknown),
    {
        self.verdict == Verdict::Unknown
    }
}

/// The report on a repository of which nothing is known but one rule.
pub fn unknown_report(policy: &GithubPolicy, rule: &str) -> (r: ComplianceReport)
    ensures
        r.schema@ == REPORT_SCHEMA@,
        r.profile@ == profile_name(policy.profile),
        r.repository@ == policy.repository@,
        r.default_branch@ == (match policy.default_branch {
            Some(b) => b@,
            None => "unknown"@,
        }),
        r.verdict == Verdict::Unknown,
        texts(r.rules@) == seq![rule@],
{
    let mut rules: Vec<String> = Vec::new();
    put(&mut rules, rule.to_owned());
    assert(texts(rules@) =~= seq![rule@]);
    ComplianceReport {
        schema: REPORT_SCHEMA.to_owned(),
        profile: policy.profile.as_str().to_owned(),
        repository: policy.repository.clone(),
        default_branch: match &policy.default_branch {
            Some(b) => b.clone(),
            None => "unknown".to_owned(),
        },
        verdict: Verdict::Unknown,
        rules,
    }
}

fn has_unknown(rules: &Vec<String>) -> (r: bool)
    ensures
        r == any_unknown(texts(rules@)),
{
    let mut i: usize = 0;
    while i < rules.len()
        invariant
            i <= rules.len(),
            forall|k: int| 0 <= k < i ==> !ends(#[trigger] texts(rules@)[k], "-unknown"@),
        decreases rules.len() - i,
    {
        assert(texts(rules@)[i as int] == rules@[i as int]@);
        if ends_with(rules[i].as_str(), "-unknown") {
            return true;
        }
        i += 1;
    }
    false
}

/// Sorts the rules of a report, keeps each once, and draws the verdict from them.
pub fn finalize_report(report: &mut ComplianceReport)
    ensures
        sorted_set(texts(final(report).rules@), texts(old(report).rules@)),
        final(report).verdict == verdict_of(texts(old(report).rules@)),
        final(report).schema == old(report).schema,
        final(report).profile == old(report).profile,
        final(report).repository == old(report).repository,
        final(report).default_branch == old(report).default_branch,
{
    let ghost raw = texts(report.rules@);
    let mut rules: Vec<String> = Vec::new();
    std::mem::swap(&mut rules, &mut report.rules);
    let rules = sort_dedup(rules);
    proof {
        verdict_ignores_order(texts(rules@), raw);
        assert(texts(rules@).len() == rules@.len());
    }
    report.verdict = if has_unknown(&rules) {
        Verdict::Unknown
    } else if rules.len() == 0 {
        Verdict::Pass
    } else {
        Verdict::Fail
    };
    report.rules = rules;
}

/// The verdict does not depend on the order of the rules, nor on how often one of them is given.
pub proof fn verdict_ignores_order(r: Seq<Seq<char>>, raw: Seq<Seq<char>>)
    requires
        sorted_set(r, raw),
    ensures
        verdict_of(r) == verdict_of(raw),
{
    if any_unknown(r) {
        let i = choose|i: int| 0 <= i < r.len() && ends(#[trigger] r[i], "-unknown"@);
        assert(r.contains(r[i]));
        let j = choose|j: int| 0 <= j < raw.len() && raw[j] == r[i];
        assert(ends(raw[j], "-unknown"@));
    }
    if any_unknown(raw) {
        let i = choose|i: int| 0 <= i < raw.len() && ends(#[trigger] raw[i], "-unknown"@);
        assert(raw.contains(raw[i]));
        assert(r.contains(raw[i]));
        let j = choose|j: int| 0 <= j < r.len() && r[j] == raw[i];
        assert(ends(r[j], "-unknown"@));
    }
    if r.len() > 0 {
        assert(r.contains(r[0]));
    }
    if raw.len() > 0 {
        assert(raw.contains(raw[0]));
        assert(r.contains(raw[0]));
    }
}

// ── evaluation ─────────────────────────────────────────────────────────────────────────

/// The rule that an observed setting stands against: none where it is on, the rule where it is
/// off, and that it is unknown where it could not be seen.
pub open spec fn security_rules(rule: Seq<char>, value: Option<bool>) -> Seq<Seq<char>> {
    match value {
        Some(true) => seq![],
        Some(false) => seq![rule],
        None => seq![rule + "-unknown"@],
    }
}

/// `rule` where `broken` holds.
pub open spec fn rule_if(broken: bool, rule: Seq<char>) -> Seq<Seq<char>> {
    if broken {
        seq![rule]
    } else {
        seq![]
    }
}

/// Whether a ruleset is the standard one, in force on the default branch.
pub open spec fn matches_standard(r: RulesetObservation) -> bool {
    r.name@ == RULESET_NAME@ && r.enforcement@ == "active"@ && r.targets_default_branch
}

/// Whether a ruleset protects as the standard asks.
pub open spec fn protects(r: RulesetObservation) -> bool {
    &&& r.bypass_actors == 0
    &&& r.blocks_deletion
    &&& r.blocks_non_fast_forward
    &&& r.pull_request_required
    &&& r.approvals >= 1
    &&& r.dismisses_stale_reviews
    &&& r.resolves_threads
    &&& r.extra_approval_for_unattributed_changes
    &&& r.strict_required_checks
    &&& texts(r.required_checks@).contains(REQUIRED_CHECK@)
}

/// The first ruleset from position `i` on that is the standard one.
pub open spec fn first_standard(rs: Seq<RulesetObservation>, i: int) -> Option<RulesetObservation>
    decreases rs.len() - i,
{
    if i >= rs.len() {
        None
    } else if matches_standard(rs[i]) {
        Some(rs[i])
    } else {
        first_standard(rs, i + 1)
    }
}

/// Whether one of the rulesets is the standard one and protects.
pub open spec fn protected(rs: Seq<RulesetObservation>) -> bool {
    exists|i: int| 0 <= i < rs.len() && matches_standard(#[trigger] rs[i]) && protects(rs[i])
}

/// What a ruleset lacks.
pub open spec fn ruleset_gaps(r: RulesetObservation) -> Seq<Seq<char>> {
    rule_if(r.bypass_actors != 0, "github-no-bypass"@) + rule_if(
        !r.blocks_deletion,
        "github-deletion-protection"@,
    ) + rule_if(!r.blocks_non_fast_forward, "github-force-push-protection"@) + rule_if(
        !r.pull_request_required || r.approvals < 1,
        "github-pull-request-review"@,
    ) + rule_if(!r.dismisses_stale_reviews, "github-stale-review-dismissal"@) + rule_if(
        !r.resolves_threads,
        "github-resolved-threads"@,
    ) + rule_if(
        !r.extra_approval_for_unattributed_changes,
        "github-unattributed-approval"@,
    ) + rule_if(!r.strict_required_checks, "github-strict-required-checks"@) + rule_if(
        !texts(r.required_checks@).contains(REQUIRED_CHECK@),
        "github-required-check"@,
    )
}

/// What the rulesets of a repository lack.
pub open spec fn ruleset_rules(rs: Seq<RulesetObservation>) -> Seq<Seq<char>> {
    match first_standard(rs, 0) {
        None => seq!["github-standard-ruleset"@],
        Some(r) => if protected(rs) {
            seq![]
        } else {
            ruleset_gaps(r)
        },
    }
}

/// What the settings of a repository lack.
pub open spec fn setting_rules(policy: GithubPolicy, o: Observation) -> Seq<Seq<char>> {
    rule_if(policy.repository@ != o.repository@, "github-repository-identity"@) + rule_if(
        policy.default_branch is Some && policy.default_branch->0@ != o.default_branch@,
        "github-default-branch"@,
    ) + rule_if(!o.actions_enabled, "github-actions-enabled"@) + rule_if(
        !o.sha_pinning_required,
        "github-actions-sha-pinning"@,
    ) + security_rules(
        "github-dependabot-security-updates"@,
        o.dependabot_security_updates,
    ) + security_rules("github-secret-scanning"@, o.secret_scanning) + security_rules(
        "github-push-protection"@,
        o.push_protection,
    ) + rule_if(!o.ruleset_visibility_complete, "github-ruleset-visibility-unknown"@)
}

/// All the rules that stand against a repository.
pub open spec fn standing_rules(policy: GithubPolicy, o: Observation) -> Seq<Seq<char>> {
    setting_rules(policy, o) + ruleset_rules(o.rulesets@)
}

fn flag(rules: &mut Vec<String>, broken: bool, rule: &str)
    ensures
        texts(final(rules)@) == texts(old(rules)@) + rule_if(broken, rule@),
{
    let ghost before = texts(rules@);
    if broken {
        put(rules, rule.to_owned());
    }
    assert(texts(rules@) =~= before + rule_if(broken, rule@));
}

fn flag_security(rules: &mut Vec<String>, rule: &str, value: Option<bool>)
    ensures
        texts(final(rules)@) == texts(old(rules)@) + security_rules(rule@, value),
{
    let ghost before = texts(rules@);
    match value {
        Some(on) => {
            if !on {
                put(rules, rule.to_owned());
            }
        },
        None => {
            put(rules, cat2(rule, "-unknown"));
        },
    }
    assert(texts(rules@) =~= before + security_rules(rule@, value));
}

fn is_standard(r: &RulesetObservation) -> (b: bool)
    ensures
        b == matches_standard(*r),
{
    same(r.name.as_str(), RULESET_NAME) && same(r.enforcement.as_str(), "active")
        && r.targets_default_branch
}

fn does_protect(r: &RulesetObservation) -> (b: bool)
    ensures
        b == protects(*r),
{
    r.bypass_actors == 0 && r.blocks_deletion && r.blocks_non_fast_forward
        && r.pull_request_required && r.approvals >= 1 && r.dismisses_stale_reviews
        && r.resolves_threads && r.extra_approval_for_unattributed_changes
        && r.strict_required_checks && holds(&r.required_checks, REQUIRED_CHECK)
}

fn list_gaps(r: &RulesetObservation, rules: &mut Vec<String>)
    ensures
        texts(final(rules)@) == texts(old(rules)@) + ruleset_gaps(*r),
{
    let mut gaps: Vec<String> = Vec::new();
    flag(&mut gaps, r.bypass_actors != 0, "github-no-bypass");
    assert(texts(gaps@) =~= rule_if(r.bypass_actors != 0, "github-no-bypass"@));
    flag(&mut gaps, !r.blocks_deletion, "github-deletion-protection");
    flag(&mut gaps, !r.blocks_non_fast_forward, "github-force-push-protection");
    flag(&mut gaps, !r.pull_request_required || r.approvals < 1, "github-pull-request-review");
    flag(&mut gaps, !r.dismisses_stale_reviews, "github-stale-review-dismissal");
    flag(&mut gaps, !r.resolves_threads, "github-resolved-threads");
    flag(
        &mut gaps,
        !r.extra_approval_for_unattributed_changes,
        "github-unattributed-approval",
    );
    flag(&mut gaps, !r.strict_required_checks, "github-strict-required-checks");
    flag(&mut gaps, !holds(&r.required_checks, REQUIRED_CHECK), "github-required-check");
    crate::text::put_all(rules, &gaps);
}

fn list_ruleset_rules(rs: &Vec<RulesetObservation>, rules: &mut Vec<String>)
    ensures
        texts(final(rules)@) == texts(old(rules)@) + ruleset_rules(rs@),
{
    let ghost before = texts(rules@);
    let mut first: Option<usize> = None;
    let mut guarded = false;
    let mut i: usize = 0;
    while i < rs.len()
        invariant
            i <= rs.len(),
            match first {
                Some(k) => k < rs.len() && first_standard(rs@, 0) == Some(rs@[k as int]),
                None => first_standard(rs@, 0) == first_standard(rs@, i as int),
            },
            guarded <==> exists|k: int|
                0 <= k < i && matches_standard(#[trigger] rs@[k]) && protects(rs@[k]),
        decreases rs.len() - i,
    {
        if is_standard(&rs[i]) {
            if first.is_none() {
                first = Some(i);
            }
            if does_protect(&rs[i]) {
                guarded = true;
            }
        }
        i += 1;
    }
    match first {
        None => {
            put(rules, "github-standard-ruleset".to_owned());
        },
        Some(k) => {
            if !guarded {
                list_gaps(&rs[k], rules);
            }
        },
    }
    assert(texts(rules@) =~= before + ruleset_rules(rs@));
}

/// Holds an observation against a policy.
pub fn evaluate(policy: &GithubPolicy, observation: &Observation) -> (r: ComplianceReport)
    ensures
        r.schema@ == REPORT_SCHEMA@,
        r.profile@ == profile_name(policy.profile),
        r.repository@ == observation.repository@,
        r.default_branch@ == observation.default_branch@,
        sorted_set(texts(r.rules@), standing_rules(*policy, *observation)),
        r.verdict == verdict_of(standing_rules(*policy, *observation)),
{
    let mut rules: Vec<String> = Vec::new();
    assert(texts(rules@) =~= Seq::<Seq<char>>::empty());
    flag(
        &mut rules,
        !same(policy.repository.as_str(), observation.repository.as_str()),
        "github-repository-identity",
    );
    assert(texts(rules@) =~= rule_if(
        policy.repository@ != observation.repository@,
        "github-repository-identity"@,
    ));
    let other_branch = match &policy.default_branch {
        Some(b) => !same(b.as_str(), observation.default_branch.as_str()),
        None => false,
    };
    flag(&mut rules, other_branch, "github-default-branch");
    flag(&mut rules, !observation.actions_enabled, "github-actions-enabled");
    flag(&mut rules, !observation.sha_pinning_required, "github-actions-sha-pinning");
    flag_security(
        &mut rules,
        "github-dependabot-security-updates",
        observation.dependabot_security_updates,
    );
    flag_security(&mut rules, "github-secret-scanning", observation.secret_scanning);
    flag_security(&mut rules, "github-push-protection", observation.push_protection);
    flag(
        &mut rules,
        !observation.ruleset_visibility_complete,
        "github-ruleset-visibility-unknown",
    );
    assert(texts(rules@) == setting_rules(*policy, *observation));
    list_ruleset_rules(&observation.rulesets, &mut rules);
    let mut report = ComplianceReport {
        schema: REPORT_SCHEMA.to_owned(),
        profile: policy.profile.as_str().to_owned(),
        repository: observation.repository.clone(),
        default_branch: observation.default_branch.clone(),
        verdict: Verdict::Fail,
        rules,
    };
    finalize_report(&mut report);
    report
}

/// Whether everything that the policy asks for has been observed.
pub open spec fn complete(policy: GithubPolicy, o: Observation) -> bool {
    &&& policy.repository@ == o.repository@
    &&& policy.default_branch is Some ==> policy.default_branch->0@ == o.default_branch@
    &&& o.actions_enabled
    &&& o.sha_pinning_required
    &&& o.dependabot_security_updates == Some(true)
    &&& o.secret_scanning == Some(true)
    &&& o.push_protection == Some(true)
    &&& o.ruleset_visibility_complete
    &&& protected(o.rulesets@)
}

/// The verdict is pass if and only if everything that the policy asks for has been observed.
pub proof fn pass_means_complete(policy: GithubPolicy, o: Observation)
    ensures
        verdict_of(standing_rules(policy, o)) == Verdict::Pass <==> complete(policy, o),
{
    let s = setting_rules(policy, o);
    let r = ruleset_rules(o.rulesets@);
    let all = standing_rules(policy, o);
    assert(all.len() == s.len() + r.len());
    no_setting_rules(policy, o);
    no_ruleset_rules(o.rulesets@);
    if any_unknown(all) {
        let i = choose|i: int| 0 <= i < all.len() && ends(#[trigger] all[i], "-unknown"@);
        assert(all.len() > 0);
    }
}

proof fn no_setting_rules(policy: GithubPolicy, o: Observation)
    ensures
        setting_rules(policy, o).len() == 0 <==> {
            &&& policy.repository@ == o.repository@
            &&& policy.default_branch is Some ==> policy.default_branch->0@ == o.default_branch@
            &&& o.actions_enabled
            &&& o.sha_pinning_required
            &&& o.dependabot_security_updates == Some(true)
            &&& o.secret_scanning == Some(true)
            &&& o.push_protection == Some(true)
            &&& o.ruleset_visibility_complete
        },
{
}

proof fn no_gaps(r: RulesetObservation)
    ensures
        ruleset_gaps(r).len() == 0 <==> protects(r),
{
}

proof fn no_ruleset_rules(rs: Seq<RulesetObservation>)
    ensures
        ruleset_rules(rs).len() == 0 <==> protected(rs),
{
    if protected(rs) {
        let i = choose|i: int|
            0 <= i < rs.len() && matches_standard(#[trigger] rs[i]) && protects(rs[i]);
        first_standard_there(rs, 0, i);
    } else if first_standard(rs, 0) is Some {
        let k = first_standard_at(rs, 0);
        no_gaps(rs[k]);
        assert(matches_standard(rs[k]));
    }
}

proof fn first_standard_there(rs: Seq<RulesetObservation>, i: int, k: int)
    requires
        0 <= i <= k < rs.len(),
        matches_standard(rs[k]),
    ensures
        first_standard(rs, i) is Some,
    decreases k - i,
{
    if !matches_standard(rs[i]) {
        first_standard_there(rs, i + 1, k);
    }
}

proof fn first_standard_at(rs: Seq<RulesetObservation>, i: int) -> (k: int)
    requires
        0 <= i,
        first_standard(rs, i) is Some,
    ensures
        i <= k < rs.len(),
        rs[k] == first_standard(rs, i)->0,
        matches_standard(rs[k]),
    decreases rs.len() - i,
{
    if matches_standard(rs[i]) {
        i
    } else {
        first_standard_at(rs, i + 1)
    }
}

/// Whether everything was seen that the verdict rests on.
pub open spec fn all_seen(o: Observation) -> bool {
    &&& o.dependabot_security_updates is Some
    &&& o.secret_scanning is Some
    &&& o.push_protection is Some
    &&& o.ruleset_visibility_complete
}

proof fn ends_known(x: Seq<char>)
    requires
        x.len() >= 2,
        x[x.len() - 2] != 'w',
    ensures
        !ends(x, "-unknown"@),
{
    let tail = "-unknown"@;
    reveal_strlit("-unknown");
    if ends(x, tail) {
        assert(x.subrange(x.len() - tail.len(), x.len() as int)[tail.len() - 2] == tail[tail.len()
            - 2]);
    }
}

proof fn gaps_are_known(r: RulesetObservation, x: Seq<char>)
    requires
        ruleset_gaps(r).contains(x),
    ensures
        !ends(x, "-unknown"@),
{
    assert(!ends("github-no-bypass"@, "-unknown"@)) by {
        reveal_strlit("github-no-bypass");
        ends_known("github-no-bypass"@);
    }
    assert(!ends("github-deletion-protection"@, "-unknown"@)) by {
        reveal_strlit("github-deletion-protection");
        ends_known("github-deletion-protection"@);
    }
    assert(!ends("github-force-push-protection"@, "-unknown"@)) by {
        reveal_strlit("github-force-push-protection");
        ends_known("github-force-push-protection"@);
    }
    assert(!ends("github-pull-request-review"@, "-unknown"@)) by {
        reveal_strlit("github-pull-request-review");
        ends_known("github-pull-request-review"@);
    }
    assert(!ends("github-stale-review-dismissal"@, "-unknown"@)) by {
        reveal_strlit("github-stale-review-dismissal");
        ends_known("github-stale-review-dismissal"@);
    }
    assert(!ends("github-resolved-threads"@, "-unknown"@)) by {
        reveal_strlit("github-resolved-threads");
        ends_known("github-resolved-threads"@);
    }
    assert(!ends("github-unattributed-approval"@, "-unknown"@)) by {
        reveal_strlit("github-unattributed-approval");
        ends_known("github-unattributed-approval"@);
    }
    assert(!ends("github-strict-required-checks"@, "-unknown"@)) by {
        reveal_strlit("github-strict-required-checks");
        ends_known("github-strict-required-checks"@);
    }
    assert(!ends("github-required-check"@, "-unknown"@)) by {
        reveal_strlit("github-required-check");
        ends_known("github-required-check"@);
    }
    let g0 = rule_if(r.bypass_actors != 0, "github-no-bypass"@);
    let g1 = rule_if(!r.blocks_deletion, "github-deletion-protection"@);
    let g2 = rule_if(!r.blocks_non_fast_forward, "github-force-push-protection"@);
    let g3 = rule_if(
        !r.pull_request_required || r.approvals < 1,
        "github-pull-request-review"@,
    );
    let g4 = rule_if(!r.dismisses_stale_reviews, "github-stale-review-dismissal"@);
    let g5 = rule_if(!r.resolves_threads, "github-resolved-threads"@);
    let g6 = rule_if(
        !r.extra_approval_for_unattributed_changes,
        "github-unattributed-approval"@,
    );
    let g7 = rule_if(!r.strict_required_checks, "github-strict-required-checks"@);
    let g8 = rule_if(
        !texts(r.required_checks@).contains(REQUIRED_CHECK@),
        "github-required-check"@,
    );
    concat_contains(g0, g1, x);
    concat_contains(g0 + g1, g2, x);
    concat_contains(g0 + g1 + g2, g3, x);
    concat_contains(g0 + g1 + g2 + g3, g4, x);
    concat_contains(g0 + g1 + g2 + g3 + g4, g5, x);
    concat_contains(g0 + g1 + g2 + g3 + g4 + g5, g6, x);
    concat_contains(g0 + g1 + g2 + g3 + g4 + g5 + g6, g7, x);
    concat_contains(g0 + g1 + g2 + g3 + g4 + g5 + g6 + g7, g8, x);
}

proof fn seen_settings_are_known(policy: GithubPolicy, o: Observation, x: Seq<char>)
    requires
        all_seen(o),
        setting_rules(policy, o).contains(x),
    ensures
        !ends(x, "-unknown"@),
{
    assert(!ends("github-repository-identity"@, "-unknown"@)) by {
        reveal_strlit("github-repository-identity");
        ends_known("github-repository-identity"@);
    }
    assert(!ends("github-default-branch"@, "-unknown"@)) by {
        reveal_strlit("github-default-branch");
        ends_known("github-default-branch"@);
    }
    assert(!ends("github-actions-enabled"@, "-unknown"@)) by {
        reveal_strlit("github-actions-enabled");
        ends_known("github-actions-enabled"@);
    }
    assert(!ends("github-actions-sha-pinning"@, "-unknown"@)) by {
        reveal_strlit("github-actions-sha-pinning");
        ends_known("github-actions-sha-pinning"@);
    }
    assert(!ends("github-dependabot-security-updates"@, "-unknown"@)) by {
        reveal_strlit("github-dependabot-security-updates");
        ends_known("github-dependabot-security-updates"@);
    }
    assert(!ends("github-secret-scanning"@, "-unknown"@)) by {
        reveal_strlit("github-secret-scanning");
        ends_known("github-secret-scanning"@);
    }
    assert(!ends("github-push-protection"@, "-unknown"@)) by {
        reveal_strlit("github-push-protection");
        ends_known("github-push-protection"@);
    }
    let g0 = rule_if(policy.repository@ != o.repository@, "github-repository-identity"@);
    let g1 = rule_if(
        policy.default_branch is Some && policy.default_branch->0@ != o.default_branch@,
        "github-default-branch"@,
    );
    let g2 = rule_if(!o.actions_enabled, "github-actions-enabled"@);
    let g3 = rule_if(!o.sha_pinning_required, "github-actions-sha-pinning"@);
    let g4 = security_rules("github-dependabot-security-updates"@, o.dependabot_security_updates);
    let g5 = security_rules("github-secret-scanning"@, o.secret_scanning);
    let g6 = security_rules("github-push-protection"@, o.push_protection);
    let g7 = rule_if(!o.ruleset_visibility_complete, "github-ruleset-visibility-unknown"@);
    concat_contains(g0, g1, x);
    concat_contains(g0 + g1, g2, x);
    concat_contains(g0 + g1 + g2, g3, x);
    concat_contains(g0 + g1 + g2 + g3, g4, x);
    concat_contains(g0 + g1 + g2 + g3 + g4, g5, x);
    concat_contains(g0 + g1 + g2 + g3 + g4 + g5, g6, x);
    concat_contains(g0 + g1 + g2 + g3 + g4 + g5 + g6, g7, x);
}

/// The verdict is unknown if and only if something could not be observed, whatever else was seen.
pub proof fn unseen_is_unknown(policy: GithubPolicy, o: Observation)
    ensures
        verdict_of(standing_rules(policy, o)) == Verdict::Unknown <==> !all_seen(o),
{
    let all = standing_rules(policy, o);
    if all_seen(o) {
        assert forall|i: int| 0 <= i < all.len() implies !ends(#[trigger] all[i], "-unknown"@) by {
            let x = all[i];
            assert(all.contains(x));
            concat_contains(setting_rules(policy, o), ruleset_rules(o.rulesets@), x);
            if setting_rules(policy, o).contains(x) {
                seen_settings_are_known(policy, o, x);
            } else {
                match first_standard(o.rulesets@, 0) {
                    None => {
                        reveal_strlit("github-standard-ruleset");
                        assert(x == "github-standard-ruleset"@);
                        ends_known(x);
                    },
                    Some(r) => {
                        gaps_are_known(r, x);
                    },
                }
            }
        }
    } else {
        unseen_tells(policy, o);
    }
}

proof fn unseen_tells(policy: GithubPolicy, o: Observation)
    requires
        !all_seen(o),
    ensures
        verdict_of(standing_rules(policy, o)) == Verdict::Unknown,
{
    let s = setting_rules(policy, o);
    let all = standing_rules(policy, o);
    let tail = "-unknown"@;
    reveal_strlit("-unknown");
    reveal_strlit("github-ruleset-visibility-unknown");
    let shown = "github-ruleset-visibility-unknown"@;
    assert(shown.subrange(shown.len() - tail.len(), shown.len() as int) =~= tail);
    let a = "github-dependabot-security-updates"@ + tail;
    let b = "github-secret-scanning"@ + tail;
    let c = "github-push-protection"@ + tail;
    assert(a.subrange(a.len() - tail.len(), a.len() as int) =~= tail);
    assert(b.subrange(b.len() - tail.len(), b.len() as int) =~= tail);
    assert(c.subrange(c.len() - tail.len(), c.len() as int) =~= tail);
    let x = if o.dependabot_security_updates is None {
        a
    } else if o.secret_scanning is None {
        b
    } else if o.push_protection is None {
        c
    } else {
        shown
    };
    assert(ends(x, tail));
    let p1 = rule_if(policy.repository@ != o.repository@, "github-repository-identity"@) + rule_if(
        policy.default_branch is Some && policy.default_branch->0@ != o.default_branch@,
        "github-default-branch"@,
    ) + rule_if(!o.actions_enabled, "github-actions-enabled"@) + rule_if(
        !o.sha_pinning_required,
        "github-actions-sha-pinning"@,
    );
    let q1 = security_rules("github-dependabot-security-updates"@, o.dependabot_security_updates);
    let q2 = security_rules("github-secret-scanning"@, o.secret_scanning);
    let q3 = security_rules("github-push-protection"@, o.push_protection);
    let q4 = rule_if(!o.ruleset_visibility_complete, shown);
    assert(s == p1 + q1 + q2 + q3 + q4);
    concat_contains(p1, q1, x);
    concat_contains(p1 + q1, q2, x);
    concat_contains(p1 + q1 + q2, q3, x);
    concat_contains(p1 + q1 + q2 + q3, q4, x);
    concat_contains(s, ruleset_rules(o.rulesets@), x);
    if o.dependabot_security_updates is None {
        assert(q1[0] == x);
    } else if o.secret_scanning is None {
        assert(q2[0] == x);
    } else if o.push_protection is None {
        assert(q3[0] == x);
    } else {
        assert(q4[0] == x);
    }
    assert(all.contains(x));
    let i = choose|i: int| 0 <= i < all.len() && all[i] == x;
    assert(ends(all[i], "-unknown"@));
}

// ── managed files ──────────────────────────────────────────────────────────────────────

/// The workflow up to the source that it trusts.
pub const WORKFLOW_HEAD: &'static str = "name: Bonsai compliance\n\non:\n  pull_request_target:\n  push:\n\npermissions:\n  contents: read\n  pull-requests: read\n\njobs:\n  compliance:\n    name: bonsai compliance\n    runs-on: ubuntu-latest\n    timeout-minutes: 20\n    steps:\n      - uses: actions/checkout@d23441a48e516b6c34aea4fa41551a30e30af803 # v6\n        with:\n          ref: ${{ github.event.pull_request.base.sha || github.sha }}\n          fetch-depth: 0\n          persist-credentials: false\n      - uses: actions/create-github-app-token@bcd2ba49218906704ab6c1aa796996da409d3eb1 # v3.2.0\n        id: app-token\n        with:\n          app-id: ${{ secrets.BONSAI_GITHUB_APP_ID }}\n          private-key: ${{ secrets.BONSAI_GITHUB_APP_PRIVATE_KEY }}\n      - name: Materialize candidate as data\n        if: github.event_name == 'pull_request_target'\n        env:\n          PR_NUMBER: ${{ github.event.pull_request.number }}\n          HEAD: ${{ github.event.pull_request.head.sha }}\n        run: |\n          git fetch --no-tags origin \"refs/pull/$PR_NUMBER/head:refs/remotes/origin/pr-$PR_NUMBER\"\n          test \"$(git rev-parse \"origin/pr-$PR_NUMBER\")\" = \"$HEAD\"\n          git worktree add --detach \"$RUNNER_TEMP/candidate\" \"$HEAD\"\n      - name: Build trusted Bonsai\n        run: |\n          source=\"$(sed -nE 's/^bonsai_source = \"([^\"]+)\"$/\\1/p' bonsai.toml)\"\n          revision=\"$(sed -nE 's/^bonsai_revision = \"([0-9a-f]{40})\"$/\\1/p' bonsai.toml)\"\n          test \"$source\" = \"";

/// The workflow from behind the source that it trusts.
pub const WORKFLOW_TAIL: &'static str = "\" && test -n \"$revision\"\n          git clone --filter=blob:none https://github.com/Quitetall/bonsai.git \"$RUNNER_TEMP/bonsai\"\n          git -C \"$RUNNER_TEMP/bonsai\" checkout --detach \"$revision\"\n          cd \"$RUNNER_TEMP/bonsai\"\n          cargo build --locked --release\n      - name: Check GitHub and candidate policy\n        env:\n          BONSAI_GITHUB_TOKEN: ${{ steps.app-token.outputs.token }}\n        run: |\n          candidate=\"$RUNNER_TEMP/candidate\"\n          if [ ! -d \"$candidate\" ]; then candidate=\"$GITHUB_WORKSPACE\"; fi\n          \"$RUNNER_TEMP/bonsai/target/release/bonsai\" github check --root \"$candidate\" --policy-root \"$GITHUB_WORKSPACE\" --format json\n";

/// The configuration of the dependency updates.
pub const DEPENDABOT: &'static str = "version: 2\nupdates:\n  - package-ecosystem: cargo\n    directory: /\n    schedule:\n      interval: weekly\n  - package-ecosystem: github-actions\n    directory: /\n    schedule:\n      interval: weekly\n";

/// The security policy.
pub const SECURITY: &'static str = "# Security policy\n\nReport vulnerabilities privately to repository maintainers. Do not disclose exploitable details in public issues before remediation.\n";

/// The template of pull requests.
pub open spec fn template_text(profile: Profile) -> Seq<char> {
    "## Bonsai compliance\n\n- [ ] `bonsai check` passes.\n- [ ] GitHub policy files remain managed by `"@
        + profile_name(profile) + "`.\n"@ + (if profile == Profile::GovernedV1 {
        "\nWarrant: OW-WAR-####\n"@
    } else {
        ""@
    })
}

/// The files that a policy manages, with their contents, ordered by path.
pub open spec fn managed(policy: GithubPolicy) -> Seq<(Seq<char>, Seq<char>)> {
    (if policy.codeowners@.len() > 0 {
        seq![
            (
                ".github/CODEOWNERS"@,
                "* "@ + joined(texts(policy.codeowners@), " "@) + "\n"@,
            ),
        ]
    } else {
        seq![]
    }) + seq![
        (".github/dependabot.yml"@, DEPENDABOT@),
        (".github/pull_request_template.md"@, template_text(policy.profile)),
        (
            ".github/workflows/bonsai-compliance.yml"@,
            WORKFLOW_HEAD@ + CANONICAL_SOURCE@ + WORKFLOW_TAIL@,
        ),
        ("SECURITY.md"@, SECURITY@),
    ]
}

/// The files that a policy manages, with their contents, ordered by path.
pub fn managed_files(policy: &GithubPolicy) -> (r: Vec<(String, String)>)
    ensures
        crate::order::pair_views(r@) == managed(*policy),
{
    let mut r: Vec<(String, String)> = Vec::new();
    if policy.codeowners.len() > 0 {
        r.push(
            (
                ".github/CODEOWNERS".to_owned(),
                cat3("* ", join(&policy.codeowners, " ").as_str(), "\n"),
            ),
        );
    }
    r.push((".github/dependabot.yml".to_owned(), DEPENDABOT.to_owned()));
    let warrant = if policy.profile == Profile::GovernedV1 {
        "\nWarrant: OW-WAR-####\n"
    } else {
        ""
    };
    r.push(
        (
            ".github/pull_request_template.md".to_owned(),
            cat4(
                "## Bonsai compliance\n\n- [ ] `bonsai check` passes.\n- [ ] GitHub policy files remain managed by `",
                policy.profile.as_str(),
                "`.\n",
                warrant,
            ),
        ),
    );
    r.push(
        (
            ".github/workflows/bonsai-compliance.yml".to_owned(),
            cat3(WORKFLOW_HEAD, CANONICAL_SOURCE, WORKFLOW_TAIL),
        ),
    );
    r.push(("SECURITY.md".to_owned(), SECURITY.to_owned()));
    assert(crate::order::pair_views(r@) =~= managed(*policy));
    r
}

/// Whether a configuration has a section for GitHub.
pub open spec fn configured(text: Seq<char>) -> bool {
    exists|i: int| 0 <= i < lines_of(text).len() && trimmed(#[trigger] lines_of(text)[i]) == "[github]"@
}

/// Whether a configuration has a section for GitHub already, so that none may be added.
pub fn is_configured(text: &str) -> (r: bool)
    ensures
        r == configured(text@),
{
    let ls = lines(text);
    let mut i: usize = 0;
    while i < ls.len()
        invariant
            i <= ls.len(),
            texts(ls@) == lines_of(text@),
            forall|k: int| 0 <= k < i ==> trimmed(#[trigger] lines_of(text@)[k]) != "[github]"@,
        decreases ls.len() - i,
    {
        assert(texts(ls@)[i as int] == ls@[i as int]@);
        if same(trim(ls[i].as_str()).as_str(), "[github]") {
            return true;
        }
        i += 1;
    }
    assert(texts(ls@).len() == ls@.len());
    false
}

/// A configuration with a section for GitHub put at its end.
pub fn extended_config(existing: &str, block: &str) -> (r: String)
    ensures
        r@ == trimmed_end(existing@) + block@,
{
    cat2(trim_end(existing).as_str(), block)
}

/// The rule against a managed file that is not there or not as it should be.
pub open spec fn drifted_file(
    files: Seq<(Seq<char>, Seq<char>)>,
    actual: Seq<Option<Seq<char>>>,
) -> spec_fn(int) -> Seq<Seq<char>> {
    |i: int|
        if actual[i] == Some(files[i].1) {
            seq![]
        } else {
            seq!["github-managed-file:"@ + files[i].0]
        }
}

/// Managed files that were just written are as they should be.
pub proof fn fresh_files_do_not_drift(files: Seq<(Seq<char>, Seq<char>)>, n: int)
    requires
        0 <= n <= files.len(),
    ensures
        gather(
            n,
            drifted_file(files, files.map_values(|f: (Seq<char>, Seq<char>)| Some(f.1))),
        ).len() == 0,
    decreases n,
{
    if n > 0 {
        fresh_files_do_not_drift(files, n - 1);
    }
}

/// The rules against the managed files, from what is found in their places.
pub fn managed_drift(policy: &GithubPolicy, actual: &Vec<Option<String>>) -> (r: Vec<String>)
    requires
        actual@.len() == managed(*policy).len(),
    ensures
        texts(r@) == gather(
            managed(*policy).len() as int,
            drifted_file(
                managed(*policy),
                actual@.map_values(|o: Option<String>| text_opt(o)),
            ),
        ),
{
    let files = managed_files(policy);
    let ghost fs = managed(*policy);
    let ghost found = actual@.map_values(|o: Option<String>| text_opt(o));
    assert(crate::order::pair_views(files@).len() == files@.len());
    let mut r: Vec<String> = Vec::new();
    let mut i: usize = 0;
    while i < files.len()
        invariant
            i <= files.len() == actual.len(),
            fs == crate::order::pair_views(files@),
            found == actual@.map_values(|o: Option<String>| text_opt(o)),
            texts(r@) =~= gather(i as int, drifted_file(fs, found)),
        decreases files.len() - i,
    {
        assert(fs[i as int] == (files@[i as int].0@, files@[i as int].1@));
        assert(found[i as int] == text_opt(actual@[i as int]));
        let kept = match &actual[i] {
            Some(text) => same(text.as_str(), files[i].1.as_str()),
            None => false,
        };
        if !kept {
            put(&mut r, cat2("github-managed-file:", files[i].0.as_str()));
        }
        i += 1;
    }
    r
}

// ── reading what GitHub answers ────────────────────────────────────────────────────────

/// The first rule from position `i` on of a kind.
pub open spec fn rule_from(rules: Seq<Json>, kind: Seq<char>, i: int) -> Option<Json>
    decreases rules.len() - i,
{
    if i >= rules.len() {
        None
    } else if text_of(field(rules[i], "type"@)) == Some(kind) {
        Some(rules[i])
    } else {
        rule_from(rules, kind, i + 1)
    }
}

/// The rules of a ruleset.
pub open spec fn rules_of(v: Json) -> Seq<Json> {
    all_items(field(v, "rules"@))
}

/// The parameters of the first rule of a kind.
pub open spec fn parameters(v: Json, kind: Seq<char>) -> Option<Json> {
    field_below(rule_from(rules_of(v), kind, 0), "parameters"@)
}

/// The context of a required check, where it has one.
pub open spec fn check_context(checks: Seq<Json>) -> spec_fn(int) -> Seq<Seq<char>> {
    |i: int|
        match text_of(field(checks[i], "context"@)) {
            Some(s) => seq![s],
            None => seq![],
        }
}

/// The contexts of the required checks of a rule.
pub open spec fn check_contexts(p: Option<Json>) -> Seq<Seq<char>> {
    let checks = all_items(field_below(p, "required_status_checks"@));
    gather(checks.len() as int, check_context(checks))
}

/// Whether a ruleset is aimed at the default branch, by its role or by its name.
pub open spec fn aims_at(v: Json, branch: Seq<char>) -> bool {
    let refs = all_items(
        field_below(field_below(field(v, "conditions"@), "ref_name"@), "include"@),
    );
    exists|i: int|
        0 <= i < refs.len() && {
            let t = text_of(Some(#[trigger] refs[i]));
            t == Some("~DEFAULT_BRANCH"@) || t == Some(branch) || t == Some(
                "refs/heads/"@ + branch,
            )
        }
}

/// The text of a value; empty where it is none.
pub open spec fn text_or_empty(j: Option<Json>) -> Seq<char> {
    match text_of(j) {
        Some(s) => s,
        None => Seq::empty(),
    }
}

/// Whether an observation is what a ruleset says.
pub open spec fn observes(o: RulesetObservation, v: Json, branch: Seq<char>) -> bool {
    let pr = parameters(v, "pull_request"@);
    let checks = parameters(v, "required_status_checks"@);
    &&& o.name@ == text_or_empty(field(v, "name"@))
    &&& o.enforcement@ == text_or_empty(field(v, "enforcement"@))
    &&& o.targets_default_branch == aims_at(v, branch)
    &&& o.bypass_actors == all_items(field(v, "bypass_actors"@)).len()
    &&& o.blocks_deletion == (rule_from(rules_of(v), "deletion"@, 0) is Some)
    &&& o.blocks_non_fast_forward == (rule_from(rules_of(v), "non_fast_forward"@, 0) is Some)
    &&& o.pull_request_required == (pr is Some)
    &&& o.approvals == (count_of(field_below(pr, "required_approving_review_count"@)) as u32)
    &&& o.dismisses_stale_reviews == is_true(field_below(pr, "dismiss_stale_reviews_on_push"@))
    &&& o.resolves_threads == is_true(field_below(pr, "required_review_thread_resolution"@))
    &&& o.extra_approval_for_unattributed_changes == is_true(
        field_below(pr, "require_extra_approval_for_unattributed_changes"@),
    )
    &&& o.strict_required_checks == is_true(
        field_below(checks, "strict_required_status_checks_policy"@),
    )
    &&& texts(o.required_checks@) == check_contexts(checks)
}

/// The first rule of a kind.
fn find_rule<'a>(v: &'a Json, kind: &str) -> (r: Option<&'a Json>)
    ensures
        lends(r, rule_from(rules_of(*v), kind@, 0)),
{
    let rules = v.get("rules");
    match as_list(rules) {
        Some(rs) => {
            assert(items_of(field(*v, "rules"@)) == Some(rs@));
            let mut i: usize = 0;
            while i < rs.len()
                invariant
                    i <= rs.len(),
                    rules_of(*v) == rs@,
                    rule_from(rules_of(*v), kind@, 0) == rule_from(rs@, kind@, i as int),
                decreases rs.len() - i,
            {
                let rule = &rs[i];
                if text_is(rule.get("type"), kind) {
                    return Some(rule);
                }
                i += 1;
            }
            None
        },
        None => {
            assert(items_of(field(*v, "rules"@)) is None);
            None
        },
    }
}

fn list_contexts(p: Option<&Json>, Ghost(v): Ghost<Option<Json>>) -> (r: Vec<String>)
    requires
        lends(p, v),
    ensures
        texts(r@) == check_contexts(v),
{
    let mut r: Vec<String> = Vec::new();
    let checks = get_below(p, "required_status_checks");
    let ghost cs = all_items(field_below(v, "required_status_checks"@));
    match as_list(checks) {
        Some(l) => {
            assert(items_of(field_below(v, "required_status_checks"@)) == Some(l@));
            let mut i: usize = 0;
            while i < l.len()
                invariant
                    i <= l.len(),
                    cs == l@,
                    texts(r@) =~= gather(i as int, check_context(cs)),
                decreases l.len() - i,
            {
                let context = l[i].get("context");
                match as_text(context) {
                    Some(s) => {
                        assert(text_of(field(l@[i as int], "context"@)) == Some(s@));
                        put(&mut r, s.clone());
                    },
                    None => {
                        assert(text_of(field(l@[i as int], "context"@)) is None);
                    },
                }
                i += 1;
            }
        },
        None => {
            assert(items_of(field_below(v, "required_status_checks"@)) is None);
            assert(texts(r@) =~= gather(0, check_context(cs)));
        },
    }
    r
}

fn does_aim_at(v: &Json, branch: &str) -> (r: bool)
    ensures
        r == aims_at(*v, branch@),
{
    let refs = get_below(get_below(v.get("conditions"), "ref_name"), "include");
    let ghost want = field_below(
        field_below(field(*v, "conditions"@), "ref_name"@),
        "include"@,
    );
    assert(lends(refs, want));
    let full = cat2("refs/heads/", branch);
    match as_list(refs) {
        Some(l) => {
            assert(items_of(want) == Some(l@));
            let mut i: usize = 0;
            while i < l.len()
                invariant
                    i <= l.len(),
                    all_items(want) == l@,
                    want == field_below(
                        field_below(field(*v, "conditions"@), "ref_name"@),
                        "include"@,
                    ),
                    full@ == "refs/heads/"@ + branch@,
                    forall|k: int|
                        0 <= k < i ==> {
                            let t = text_of(Some(#[trigger] l@[k]));
                            !(t == Some("~DEFAULT_BRANCH"@) || t == Some(branch@) || t == Some(
                                "refs/heads/"@ + branch@,
                            ))
                        },
                decreases l.len() - i,
            {
                let item = Some(&l[i]);
                assert(lends(item, Some(l@[i as int])));
                if text_is(item, "~DEFAULT_BRANCH") || text_is(item, branch) || text_is(
                    item,
                    full.as_str(),
                ) {
                    return true;
                }
                i += 1;
            }
            false
        },
        None => {
            assert(items_of(want) is None);
            false
        },
    }
}

fn text_or_none(j: Option<&Json>) -> (r: String)
    ensures
        forall|v: Option<Json>| #[trigger] lends(j, v) ==> r@ == text_or_empty(v),
{
    match as_text(j) {
        Some(s) => s.clone(),
        None => {
            let r = String::new();
            assert(r@ =~= Seq::<char>::empty());
            r
        },
    }
}

fn list_len(j: Option<&Json>) -> (r: usize)
    ensures
        forall|v: Option<Json>| #[trigger] lends(j, v) ==> r == all_items(v).len(),
{
    match as_list(j) {
        Some(l) => l.len(),
        None => 0,
    }
}

/// What a ruleset says, as far as the standard asks.
pub fn parse_ruleset(v: &Json, branch: &str) -> (r: RulesetObservation)
    ensures
        observes(r, *v, branch@),
{
    let pr = get_below(find_rule(v, "pull_request"), "parameters");
    let checks = get_below(find_rule(v, "required_status_checks"), "parameters");
    assert(lends(pr, parameters(*v, "pull_request"@)));
    assert(lends(checks, parameters(*v, "required_status_checks"@)));
    let ghost cs = parameters(*v, "required_status_checks"@);
    let approvals: u64 = as_count(get_below(pr, "required_approving_review_count"));
    RulesetObservation {
        name: text_or_none(v.get("name")),
        enforcement: text_or_none(v.get("enforcement")),
        targets_default_branch: does_aim_at(v, branch),
        bypass_actors: list_len(v.get("bypass_actors")),
        blocks_deletion: find_rule(v, "deletion").is_some(),
        blocks_non_fast_forward: find_rule(v, "non_fast_forward").is_some(),
        pull_request_required: pr.is_some(),
        approvals: #[verifier::truncate] (approvals as u32),
        dismisses_stale_reviews: truth_of(get_below(pr, "dismiss_stale_reviews_on_push")),
        resolves_threads: truth_of(get_below(pr, "required_review_thread_resolution")),
        extra_approval_for_unattributed_changes: truth_of(
            get_below(pr, "require_extra_approval_for_unattributed_changes"),
        ),
        strict_required_checks: truth_of(
            get_below(checks, "strict_required_status_checks_policy"),
        ),
        required_checks: list_contexts(checks, Ghost(cs)),
    }
}

/// Whether a security setting is on; `None` where it is not shown.
pub open spec fn setting(repo: Json, name: Seq<char>) -> Option<bool> {
    match text_of(
        field_below(field_below(field(repo, "security_and_analysis"@), name), "status"@),
    ) {
        Some(s) => Some(s == "enabled"@),
        None => None,
    }
}

fn security_status(repo: &Json, name: &str) -> (r: Option<bool>)
    ensures
        r == setting(*repo, name@),
{
    let status = get_below(get_below(repo.get("security_and_analysis"), name), "status");
    let ghost v = field_below(
        field_below(field(*repo, "security_and_analysis"@), name@),
        "status"@,
    );
    assert(lends(status, v));
    match as_text(status) {
        Some(s) => Some(same(s.as_str(), "enabled")),
        None => None,
    }
}

/// The id of an entry of a list of rulesets, where it has one.
pub open spec fn entry_id(l: Seq<Json>) -> spec_fn(int) -> Seq<i64> {
    |i: int|
        match number_of(field(l[i], "id"@)) {
            Some(n) => seq![n],
            None => seq![],
        }
}

/// The ids in a list of rulesets.
pub open spec fn ids_of(list: Json) -> Seq<i64> {
    gather(all_items(Some(list)).len() as int, entry_id(all_items(Some(list))))
}

/// The ids of the rulesets of a repository.
pub fn ruleset_ids(list: &Json) -> (r: Vec<i64>)
    ensures
        r@ == ids_of(*list),
{
    let mut r: Vec<i64> = Vec::new();
    let ghost all = all_items(Some(*list));
    let whole = Some(list);
    assert(lends(whole, Some(*list)));
    match as_list(whole) {
        Some(l) => {
            assert(items_of(Some(*list)) == Some(l@));
            let mut i: usize = 0;
            while i < l.len()
                invariant
                    i <= l.len(),
                    all == l@,
                    r@ =~= gather(i as int, entry_id(all)),
                decreases l.len() - i,
            {
                let id = l[i].get("id");
                match as_number(id) {
                    Some(n) => {
                        assert(number_of(field(l@[i as int], "id"@)) == Some(n));
                        r.push(n);
                    },
                    None => {
                        assert(number_of(field(l@[i as int], "id"@)) is None);
                    },
                }
                i += 1;
            }
        },
        None => {
            assert(items_of(Some(*list)) is None);
            assert(r@ =~= gather(0, entry_id(all)));
        },
    }
    r
}

/// The default branch that GitHub names in its answer about a repository, where it names one.
pub open spec fn branch_of(repo: Json) -> Option<Seq<char>> {
    if text_or_empty(field(repo, "default_branch"@)).len() == 0 {
        None
    } else {
        Some(text_or_empty(field(repo, "default_branch"@)))
    }
}

/// The default branch of a repository; `None` where GitHub names none.
pub fn default_branch(repo: &Json) -> (r: Option<String>)
    ensures
        text_opt(r) == branch_of(*repo),
{
    let b = text_or_none(repo.get("default_branch"));
    if chars(b.as_str()).len() == 0 {
        None
    } else {
        Some(b)
    }
}

/// Whether an observation is what GitHub's answers about a repository, about its actions and
/// about each of its rulesets show.
pub open spec fn observed(
    o: Observation,
    policy: GithubPolicy,
    branch: Seq<char>,
    repo: Json,
    actions: Json,
    details: Seq<Json>,
) -> bool {
    &&& o.repository@ == policy.repository@
    &&& o.default_branch@ == branch
    &&& o.actions_enabled == is_true(field(actions, "enabled"@))
    &&& o.sha_pinning_required == is_true(field(actions, "sha_pinning_required"@))
    &&& o.dependabot_security_updates == setting(repo, "dependabot_security_updates"@)
    &&& o.secret_scanning == setting(repo, "secret_scanning"@)
    &&& o.push_protection == setting(repo, "secret_scanning_push_protection"@)
    &&& o.ruleset_visibility_complete == (forall|i: int|
        0 <= i < details.len() ==> field(#[trigger] details[i], "bypass_actors"@) is Some)
    &&& o.rulesets@.len() == details.len()
    &&& forall|i: int|
        0 <= i < details.len() ==> observes(#[trigger] o.rulesets@[i], details[i], branch)
}

/// What is observed of a repository, from what GitHub answers about it, about its actions and
/// about each of its rulesets.
pub fn observation_of(
    policy: &GithubPolicy,
    branch: &str,
    repo: &Json,
    actions: &Json,
    details: &Vec<Json>,
) -> (r: Observation)
    ensures
        observed(r, *policy, branch@, *repo, *actions, details@),
{
    let mut rulesets: Vec<RulesetObservation> = Vec::new();
    let mut complete = true;
    let mut i: usize = 0;
    while i < details.len()
        invariant
            i <= details.len(),
            rulesets.len() == i,
            complete == (forall|k: int|
                0 <= k < i ==> field(#[trigger] details@[k], "bypass_actors"@) is Some),
            forall|k: int|
                0 <= k < i ==> observes(#[trigger] rulesets@[k], details@[k], branch@),
        decreases details.len() - i,
    {
        let ghost before = complete;
        if details[i].get("bypass_actors").is_none() {
            assert(field(details@[i as int], "bypass_actors"@) is None);
            complete = false;
        }
        rulesets.push(parse_ruleset(&details[i], branch));
        i += 1;
    }
    Observation {
        repository: policy.repository.clone(),
        default_branch: branch.to_owned(),
        actions_enabled: truth_of(actions.get("enabled")),
        sha_pinning_required: truth_of(actions.get("sha_pinning_required")),
        dependabot_security_updates: security_status(repo, "dependabot_security_updates"),
        secret_scanning: security_status(repo, "secret_scanning"),
        push_protection: security_status(repo, "secret_scanning_push_protection"),
        ruleset_visibility_complete: complete,
        rulesets,
    }
}

} // verus!
