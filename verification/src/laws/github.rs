//! When a repository complies, and what is said against one that does not.
use vstd::prelude::*;

use crate::github::{
    check_context, check_contexts, codeowner, commit_hash, first_standard, matches_standard,
    name_component, observes, protected, protects, repository_name, rule_from, rule_if, rules_of,
    ruleset_gaps, ruleset_rules, security_rules, setting_rules, standing_rules, verdict_of,
    GithubPolicy, Observation, PolicyFault, RulesetObservation, Verdict, CANONICAL_SOURCE,
};
use crate::ruleset::{default_branch_only, replaceable};
use crate::text::{at, concat_contains, find, find_from_facts, gather_contains, parts, texts};
use crate::value::{all_items, count_of, field, is_true, text_of, Json};

verus! {

// ── compliance ─────────────────────────────────────────────────────────────────────────

/// Whether a ruleset has the standard name, is active, and is aimed at the default branch.
pub open spec fn is_standard(r: RulesetObservation) -> bool {
    r.name@ == "bonsai-standard-v1"@ && r.enforcement@ == "active"@ && r.targets_default_branch
}

/// Whether a ruleset lacks nothing: nobody may bypass it, it blocks deletion and forced pushes, asks
/// for a pull request with an approval that goes stale, for resolved threads and for an extra
/// approval of unattributed changes, and requires the check on an up-to-date branch.
pub open spec fn lacks_nothing(r: RulesetObservation) -> bool {
    &&& r.bypass_actors == 0
    &&& r.blocks_deletion
    &&& r.blocks_non_fast_forward
    &&& r.pull_request_required
    &&& r.approvals > 0
    &&& r.dismisses_stale_reviews
    &&& r.resolves_threads
    &&& r.extra_approval_for_unattributed_changes
    &&& r.strict_required_checks
    &&& texts(r.required_checks@).contains("bonsai compliance"@)
}

/// A repository complies if and only if it is the one of the policy, with the default branch that
/// the policy names, if any; its actions are enabled and pinned; its security settings are seen to
/// be on; all of its rulesets could be seen; and one of them is the standard one and lacks nothing.
pub proof fn compliant_exactly_where_protected(policy: GithubPolicy, o: Observation)
    ensures
        verdict_of(standing_rules(policy, o)) == Verdict::Pass <==> {
            &&& policy.repository@ == o.repository@
            &&& policy.default_branch is Some ==> policy.default_branch->0@ == o.default_branch@
            &&& o.actions_enabled
            &&& o.sha_pinning_required
            &&& o.dependabot_security_updates == Some(true)
            &&& o.secret_scanning == Some(true)
            &&& o.push_protection == Some(true)
            &&& o.ruleset_visibility_complete
            &&& exists|i: int|
                0 <= i < o.rulesets@.len() && is_standard(#[trigger] o.rulesets@[i]) && lacks_nothing(
                    o.rulesets@[i],
                )
        },
{
    crate::github::pass_means_complete(policy, o);
    let rs = o.rulesets@;
    if protected(rs) {
        let i = choose|i: int|
            0 <= i < rs.len() && matches_standard(#[trigger] rs[i]) && protects(rs[i]);
        assert(is_standard(rs[i]) && lacks_nothing(rs[i]));
    }
    if exists|i: int|
        0 <= i < rs.len() && is_standard(#[trigger] rs[i]) && lacks_nothing(rs[i]) {
        let i = choose|i: int|
            0 <= i < rs.len() && is_standard(#[trigger] rs[i]) && lacks_nothing(rs[i]);
        assert(matches_standard(rs[i]) && protects(rs[i]));
    }
}

/// The verdict is unknown, whatever else was seen, if and only if a security setting or a part of
/// the rulesets could not be seen.
pub proof fn unknown_exactly_where_unseen(policy: GithubPolicy, o: Observation)
    ensures
        verdict_of(standing_rules(policy, o)) == Verdict::Unknown <==> o.dependabot_security_updates is None
            || o.secret_scanning is None || o.push_protection is None
            || !o.ruleset_visibility_complete,
{
    crate::github::unseen_is_unknown(policy, o);
}

proof fn nine<T>(
    a: Seq<T>,
    b: Seq<T>,
    c: Seq<T>,
    d: Seq<T>,
    e: Seq<T>,
    f: Seq<T>,
    g: Seq<T>,
    h: Seq<T>,
    i: Seq<T>,
    x: T,
)
    ensures
        (a + b + c + d + e + f + g + h + i).contains(x) <==> a.contains(x) || b.contains(x)
            || c.contains(x) || d.contains(x) || e.contains(x) || f.contains(x) || g.contains(x)
            || h.contains(x) || i.contains(x),
{
    concat_contains(a, b, x);
    concat_contains(a + b, c, x);
    concat_contains(a + b + c, d, x);
    concat_contains(a + b + c + d, e, x);
    concat_contains(a + b + c + d + e, f, x);
    concat_contains(a + b + c + d + e + f, g, x);
    concat_contains(a + b + c + d + e + f + g, h, x);
    concat_contains(a + b + c + d + e + f + g + h, i, x);
}

proof fn said_if(broken: bool, rule: Seq<char>)
    ensures
        broken ==> rule_if(broken, rule).contains(rule),
{
    if broken {
        assert(rule_if(broken, rule)[0] == rule);
    }
}

proof fn gaps_said(r: RulesetObservation, x: Seq<char>)
    ensures
        ruleset_gaps(r).contains(x) <== {
            ||| r.bypass_actors != 0 && x == "github-no-bypass"@
            ||| !r.blocks_deletion && x == "github-deletion-protection"@
            ||| !r.blocks_non_fast_forward && x == "github-force-push-protection"@
            ||| (!r.pull_request_required || r.approvals == 0) && x == "github-pull-request-review"@
            ||| !r.dismisses_stale_reviews && x == "github-stale-review-dismissal"@
            ||| !r.resolves_threads && x == "github-resolved-threads"@
            ||| !r.extra_approval_for_unattributed_changes && x == "github-unattributed-approval"@
            ||| !r.strict_required_checks && x == "github-strict-required-checks"@
            ||| !texts(r.required_checks@).contains("bonsai compliance"@) && x
                == "github-required-check"@
        },
{
    let a = rule_if(r.bypass_actors != 0, "github-no-bypass"@);
    let b = rule_if(!r.blocks_deletion, "github-deletion-protection"@);
    let c = rule_if(!r.blocks_non_fast_forward, "github-force-push-protection"@);
    let d = rule_if(!r.pull_request_required || r.approvals < 1, "github-pull-request-review"@);
    let e = rule_if(!r.dismisses_stale_reviews, "github-stale-review-dismissal"@);
    let f = rule_if(!r.resolves_threads, "github-resolved-threads"@);
    let g = rule_if(!r.extra_approval_for_unattributed_changes, "github-unattributed-approval"@);
    let h = rule_if(!r.strict_required_checks, "github-strict-required-checks"@);
    let missing = !texts(r.required_checks@).contains("bonsai compliance"@);
    let i = rule_if(missing, "github-required-check"@);
    nine(a, b, c, d, e, f, g, h, i, x);
    said_if(r.bypass_actors != 0, x);
    said_if(!r.blocks_deletion, x);
    said_if(!r.blocks_non_fast_forward, x);
    said_if(!r.pull_request_required || r.approvals < 1, x);
    said_if(!r.dismisses_stale_reviews, x);
    said_if(!r.resolves_threads, x);
    said_if(!r.extra_approval_for_unattributed_changes, x);
    said_if(!r.strict_required_checks, x);
    said_if(missing, x);
}

proof fn first_standard_is(rs: Seq<RulesetObservation>, i: int, k: int)
    requires
        0 <= i <= k < rs.len(),
        is_standard(rs[k]),
        forall|j: int| i <= j < k ==> !is_standard(#[trigger] rs[j]),
    ensures
        first_standard(rs, i) == Some(rs[k]),
    decreases k - i,
{
    if i < k {
        assert(!is_standard(rs[i]));
        first_standard_is(rs, i + 1, k);
    }
}

proof fn no_standard_is(rs: Seq<RulesetObservation>, i: int)
    requires
        0 <= i <= rs.len(),
        forall|j: int| i <= j < rs.len() ==> !is_standard(#[trigger] rs[j]),
    ensures
        first_standard(rs, i) is None,
    decreases rs.len() - i,
{
    if i < rs.len() {
        assert(!is_standard(rs[i]));
        no_standard_is(rs, i + 1);
    }
}

/// Where no ruleset is the standard one, that is said; and where no standard one lacks nothing, all
/// that the first of them lacks is said.
pub proof fn lacks_are_said(rs: Seq<RulesetObservation>, k: int, x: Seq<char>)
    requires
        forall|i: int| 0 <= i < rs.len() && is_standard(#[trigger] rs[i]) ==> !lacks_nothing(rs[i]),
    ensures
        (forall|i: int| 0 <= i < rs.len() ==> !is_standard(#[trigger] rs[i])) ==> ruleset_rules(rs)
            == seq!["github-standard-ruleset"@],
        0 <= k < rs.len() && is_standard(rs[k]) && (forall|i: int|
            0 <= i < k ==> !is_standard(#[trigger] rs[i])) && ({
            let r = rs[k];
            ||| r.bypass_actors != 0 && x == "github-no-bypass"@
            ||| !r.blocks_deletion && x == "github-deletion-protection"@
            ||| !r.blocks_non_fast_forward && x == "github-force-push-protection"@
            ||| (!r.pull_request_required || r.approvals == 0) && x == "github-pull-request-review"@
            ||| !r.dismisses_stale_reviews && x == "github-stale-review-dismissal"@
            ||| !r.resolves_threads && x == "github-resolved-threads"@
            ||| !r.extra_approval_for_unattributed_changes && x == "github-unattributed-approval"@
            ||| !r.strict_required_checks && x == "github-strict-required-checks"@
            ||| !texts(r.required_checks@).contains("bonsai compliance"@) && x
                == "github-required-check"@
        }) ==> ruleset_rules(rs).contains(x),
{
    if forall|i: int| 0 <= i < rs.len() ==> !is_standard(#[trigger] rs[i]) {
        no_standard_is(rs, 0);
    }
    if 0 <= k < rs.len() && is_standard(rs[k]) && (forall|i: int|
        0 <= i < k ==> !is_standard(#[trigger] rs[i])) {
        first_standard_is(rs, 0, k);
        gaps_said(rs[k], x);
        if protected(rs) {
            let i = choose|i: int|
                0 <= i < rs.len() && matches_standard(#[trigger] rs[i]) && protects(rs[i]);
            assert(is_standard(rs[i]) && lacks_nothing(rs[i]));
        }
    }
}

/// What stands against the settings of a repository is said: each that is off, and each that could
/// not be seen.
pub proof fn settings_are_said(policy: GithubPolicy, o: Observation, x: Seq<char>)
    ensures
        standing_rules(policy, o).contains(x) <== {
            ||| policy.repository@ != o.repository@ && x == "github-repository-identity"@
            ||| policy.default_branch is Some && policy.default_branch->0@ != o.default_branch@ && x
                == "github-default-branch"@
            ||| !o.actions_enabled && x == "github-actions-enabled"@
            ||| !o.sha_pinning_required && x == "github-actions-sha-pinning"@
            ||| o.dependabot_security_updates == Some(false) && x
                == "github-dependabot-security-updates"@
            ||| o.secret_scanning == Some(false) && x == "github-secret-scanning"@
            ||| o.push_protection == Some(false) && x == "github-push-protection"@
            ||| o.dependabot_security_updates is None && x == "github-dependabot-security-updates"@
                + "-unknown"@
            ||| o.secret_scanning is None && x == "github-secret-scanning"@ + "-unknown"@
            ||| o.push_protection is None && x == "github-push-protection"@ + "-unknown"@
            ||| !o.ruleset_visibility_complete && x == "github-ruleset-visibility-unknown"@
        },
        ruleset_rules(o.rulesets@).contains(x) ==> standing_rules(policy, o).contains(x),
{
    let other = policy.default_branch is Some && policy.default_branch->0@ != o.default_branch@;
    let a = rule_if(policy.repository@ != o.repository@, "github-repository-identity"@);
    let b = rule_if(other, "github-default-branch"@);
    let c = rule_if(!o.actions_enabled, "github-actions-enabled"@);
    let d = rule_if(!o.sha_pinning_required, "github-actions-sha-pinning"@);
    let e = security_rules("github-dependabot-security-updates"@, o.dependabot_security_updates);
    let f = security_rules("github-secret-scanning"@, o.secret_scanning);
    let g = security_rules("github-push-protection"@, o.push_protection);
    let h = rule_if(!o.ruleset_visibility_complete, "github-ruleset-visibility-unknown"@);
    let s = setting_rules(policy, o);
    concat_contains(s, ruleset_rules(o.rulesets@), x);
    nine(a, b, c, d, e, f, g, h, seq![], x);
    assert(s + seq![] =~= s);
    said_if(policy.repository@ != o.repository@, x);
    said_if(other, x);
    said_if(!o.actions_enabled, x);
    said_if(!o.sha_pinning_required, x);
    said_if(!o.ruleset_visibility_complete, x);
    said_setting("github-dependabot-security-updates"@, o.dependabot_security_updates);
    said_setting("github-secret-scanning"@, o.secret_scanning);
    said_setting("github-push-protection"@, o.push_protection);
}

proof fn said_setting(rule: Seq<char>, value: Option<bool>)
    ensures
        value == Some(false) ==> security_rules(rule, value).contains(rule),
        value is None ==> security_rules(rule, value).contains(rule + "-unknown"@),
{
    if value == Some(false) {
        assert(security_rules(rule, value)[0] == rule);
    }
    if value is None {
        assert(security_rules(rule, value)[0] == rule + "-unknown"@);
    }
}

// ── policies ───────────────────────────────────────────────────────────────────────────

/// Whether a text holds only ASCII letters and digits, dots, hyphens and underscores, and at least
/// one of them.
pub open spec fn plain_name(s: Seq<char>) -> bool {
    s.len() > 0 && forall|j: int|
        0 <= j < s.len() ==> {
            let c = #[trigger] s[j];
            'a' <= c <= 'z' || 'A' <= c <= 'Z' || '0' <= c <= '9' || c == '.' || c == '-' || c == '_'
        }
}

proof fn plain_name_is(s: Seq<char>)
    ensures
        name_component(s) <==> plain_name(s),
{
}

/// Whether a text names a repository: an owner, a slash at position `k`, and a name.
pub open spec fn names_repository(s: Seq<char>, k: int) -> bool {
    0 <= k < s.len() && s[k] == '/' && plain_name(s.take(k)) && plain_name(s.skip(k + 1))
}

/// A repository is named by its owner and its name, with one slash between them.
pub proof fn repositories_have_owner_and_name(s: Seq<char>)
    ensures
        repository_name(s) <==> exists|k: int| #[trigger] names_repository(s, k),
{
    reveal_strlit("/");
    find_from_facts(s, "/"@, 0);
    match find(s, "/"@) {
        Some(i) => {
            assert(s.subrange(i, i + 1)[0] == s[i]);
            plain_name_is(s.take(i));
            plain_name_is(s.skip(i + 1));
            if repository_name(s) {
                assert(names_repository(s, i));
            }
            if exists|k: int| #[trigger] names_repository(s, k) {
                let k = choose|k: int| #[trigger] names_repository(s, k);
                assert(s.subrange(k, k + 1) =~= "/"@);
                assert(at(s, "/"@, k));
                if k < i {
                    assert(!at(s, "/"@, k));
                } else if i < k {
                    assert(s.take(k)[i] == '/');
                }
            }
        },
        None => {
            if exists|k: int| #[trigger] names_repository(s, k) {
                let k = choose|k: int| #[trigger] names_repository(s, k);
                assert(s.subrange(k, k + 1) =~= "/"@);
                assert(at(s, "/"@, k));
            }
        },
    }
}

/// A revision is a full commit hash: forty hexadecimal digits.
pub open spec fn full_hash(s: Seq<char>) -> bool {
    s.len() == 40 && forall|j: int|
        0 <= j < s.len() ==> {
            let c = #[trigger] s[j];
            '0' <= c <= '9' || 'a' <= c <= 'f' || 'A' <= c <= 'F'
        }
}

/// Whether a text names a user or a team: an at sign, and names with slashes between them.
pub open spec fn names_owner(s: Seq<char>) -> bool {
    &&& s.len() > 0
    &&& s[0] == '@'
    &&& forall|part: Seq<char>|
        parts(s.skip(1), '/').contains(part) ==> #[trigger] plain_name(part)
}

proof fn names_owner_is(s: Seq<char>)
    ensures
        codeowner(s) <==> names_owner(s),
{
    reveal_strlit("@");
    if s.len() > 0 {
        assert(s.subrange(0, 1)[0] == s[0]);
        if s[0] == '@' {
            assert(s.subrange(0, 1) =~= "@"@);
        }
    }
    let ps = parts(s.skip(1), '/');
    if codeowner(s) {
        assert forall|part: Seq<char>| ps.contains(part) implies #[trigger] plain_name(part) by {
            let i = choose|i: int| 0 <= i < ps.len() && ps[i] == part;
            assert(name_component(ps[i]));
            plain_name_is(part);
        }
    }
    if names_owner(s) {
        assert forall|i: int| 0 <= i < ps.len() implies name_component(#[trigger] ps[i]) by {
            assert(ps.contains(ps[i]));
            assert(plain_name(ps[i]));
            plain_name_is(ps[i]);
        }
    }
}

/// A policy is accepted if and only if it names a repository, each of its code owners is a user or a
/// team, its source is the canonical one, and its revision is a full commit hash. The first of these
/// that does not hold is the fault.
pub proof fn policies_are_accepted_exactly(p: GithubPolicy)
    ensures
        ({
            let repo = exists|k: int| #[trigger] names_repository(p.repository@, k);
            let owners = forall|i: int|
                0 <= i < p.codeowners@.len() ==> names_owner((#[trigger] p.codeowners@[i])@);
            let source = p.bonsai_source@ == CANONICAL_SOURCE@;
            let hash = full_hash(p.bonsai_revision@);
            &&& p.fault() is None <==> repo && owners && source && hash
            &&& !repo ==> p.fault() == Some(PolicyFault::Repository)
            &&& repo && !owners ==> p.fault() == Some(PolicyFault::Codeowners)
            &&& repo && owners && !source ==> p.fault() == Some(PolicyFault::Source)
            &&& repo && owners && source && !hash ==> p.fault() == Some(PolicyFault::Revision)
        }),
{
    repositories_have_owner_and_name(p.repository@);
    assert forall|i: int| 0 <= i < p.codeowners@.len() implies codeowner(
        #[trigger] p.codeowners@[i]@,
    ) == names_owner(p.codeowners@[i]@) by {
        names_owner_is(p.codeowners@[i]@);
    }
    assert(commit_hash(p.bonsai_revision@) <==> full_hash(p.bonsai_revision@));
}

// ── rulesets ───────────────────────────────────────────────────────────────────────────

/// Whether some rule of a ruleset is of a kind.
pub open spec fn has_rule(v: Json, kind: Seq<char>) -> bool {
    exists|i: int| #[trigger] kind_at(v, kind, i)
}

/// Whether the rule of a ruleset at a position is of a kind.
pub open spec fn kind_at(v: Json, kind: Seq<char>, i: int) -> bool {
    0 <= i < rules_of(v).len() && text_of(field(rules_of(v)[i], "type"@)) == Some(kind)
}

/// Whether the rule of a ruleset at a position is the first of a kind.
pub open spec fn first_kind_at(v: Json, kind: Seq<char>, i: int) -> bool {
    kind_at(v, kind, i) && forall|j: int| 0 <= j < i ==> !#[trigger] kind_at(v, kind, j)
}

proof fn kind_from(v: Json, kind: Seq<char>, i: int)
    requires
        0 <= i <= rules_of(v).len(),
        forall|j: int| 0 <= j < i ==> !#[trigger] kind_at(v, kind, j),
    ensures
        match rule_from(rules_of(v), kind, i) {
            Some(r) => exists|k: int| #[trigger] first_kind_at(v, kind, k) && rules_of(v)[k] == r,
            None => forall|k: int| !#[trigger] kind_at(v, kind, k),
        },
    decreases rules_of(v).len() - i,
{
    if i < rules_of(v).len() {
        if kind_at(v, kind, i) {
            assert(first_kind_at(v, kind, i));
        } else {
            kind_from(v, kind, i + 1);
        }
    }
}

/// What is observed of a ruleset is what it says: it blocks deletion and forced pushes where it has
/// rules of these kinds, and what it asks of pull requests and checks stands in the parameters of its
/// first rule on them. Whoever may bypass it is counted, and what it is aimed at is looked for among
/// the references that it takes in.
pub proof fn rulesets_are_observed(o: RulesetObservation, v: Json, branch: Seq<char>)
    requires
        observes(o, v, branch),
    ensures
        o.blocks_deletion <==> has_rule(v, "deletion"@),
        o.blocks_non_fast_forward <==> has_rule(v, "non_fast_forward"@),
        o.bypass_actors == all_items(field(v, "bypass_actors"@)).len(),
        !has_rule(v, "pull_request"@) ==> !o.pull_request_required && !o.dismisses_stale_reviews
            && !o.resolves_threads && !o.extra_approval_for_unattributed_changes,
        !has_rule(v, "required_status_checks"@) ==> !o.strict_required_checks
            && o.required_checks@.len() == 0,
        forall|i: int| #[trigger]
            first_kind_at(v, "pull_request"@, i) ==> {
                let p = field(rules_of(v)[i], "parameters"@);
                &&& o.pull_request_required == (p is Some)
                &&& p is Some ==> {
                    &&& o.approvals == (count_of(field(p->0, "required_approving_review_count"@)) as u32)
                    &&& o.dismisses_stale_reviews == is_true(
                        field(p->0, "dismiss_stale_reviews_on_push"@),
                    )
                    &&& o.resolves_threads == is_true(
                        field(p->0, "required_review_thread_resolution"@),
                    )
                    &&& o.extra_approval_for_unattributed_changes == is_true(
                        field(p->0, "require_extra_approval_for_unattributed_changes"@),
                    )
                }
            },
        forall|i: int| #[trigger]
            first_kind_at(v, "required_status_checks"@, i) ==> {
                let p = field(rules_of(v)[i], "parameters"@);
                p is Some ==> {
                    &&& o.strict_required_checks == is_true(
                        field(p->0, "strict_required_status_checks_policy"@),
                    )
                    &&& texts(o.required_checks@) == check_contexts(p)
                }
            },
{
    kind_from(v, "deletion"@, 0);
    kind_from(v, "non_fast_forward"@, 0);
    kind_from(v, "pull_request"@, 0);
    kind_from(v, "required_status_checks"@, 0);
    one_first(v, "pull_request"@);
    one_first(v, "required_status_checks"@);
    if rule_from(rules_of(v), "required_status_checks"@, 0) is None {
        assert(check_contexts(None).len() == 0);
        assert(texts(o.required_checks@).len() == 0);
    }
}

proof fn one_first(v: Json, kind: Seq<char>)
    ensures
        forall|k: int, l: int| #[trigger]
            first_kind_at(v, kind, k) && #[trigger] first_kind_at(v, kind, l) ==> k == l,
{
    assert forall|k: int, l: int| #[trigger]
        first_kind_at(v, kind, k) && #[trigger] first_kind_at(v, kind, l) implies k == l by {
        if k < l {
            assert(!kind_at(v, kind, k));
        } else if l < k {
            assert(!kind_at(v, kind, l));
        }
    }
}

/// A check is required under each context that the parameters of a rule on checks list, and under no
/// other.
pub proof fn contexts_are_required(p: Json, x: Seq<char>)
    ensures
        check_contexts(Some(p)).contains(x) <==> exists|i: int|
            0 <= i < all_items(field(p, "required_status_checks"@)).len() && text_of(
                field(
                    #[trigger] all_items(field(p, "required_status_checks"@))[i],
                    "context"@,
                ),
            ) == Some(x),
{
    let checks = all_items(field(p, "required_status_checks"@));
    let f = check_context(checks);
    let n = checks.len() as int;
    gather_contains(n, f, x);
    if check_contexts(Some(p)).contains(x) {
        let i = choose|i: int| 0 <= i < n && (#[trigger] f(i)).contains(x);
        let found = f(i);
        let k = choose|k: int| 0 <= k < found.len() && found[k] == x;
        assert(text_of(field(checks[i], "context"@)) == Some(x));
    }
    if exists|i: int|
        0 <= i < checks.len() && text_of(field(#[trigger] checks[i], "context"@)) == Some(x) {
        let i = choose|i: int|
            0 <= i < checks.len() && text_of(field(#[trigger] checks[i], "context"@)) == Some(x);
        assert(f(i)[0] == x);
        assert(f(i).contains(x));
    }
}

/// A ruleset that asks for more than the standard one is never replaced by it: one with a rule of
/// another kind, one that is not aimed at the default branch alone, one that asks for more than one
/// approval, for that of a code owner or of the last push, or for that of certain people, and one that
/// requires a check other than the standard one.
pub proof fn stronger_rulesets_are_kept(v: Json, i: int, k: int, x: Seq<char>)
    requires
        replaceable(v),
    ensures
        0 <= i < rules_of(v).len() ==> kind_at(v, "deletion"@, i) || kind_at(
            v,
            "non_fast_forward"@,
            i,
        ) || kind_at(v, "pull_request"@, i) || kind_at(v, "required_status_checks"@, i),
        default_branch_only(v),
        first_kind_at(v, "pull_request"@, k) && field(rules_of(v)[k], "parameters"@) is Some ==> {
            let p = field(rules_of(v)[k], "parameters"@)->0;
            &&& count_of(field(p, "required_approving_review_count"@)) < 2
            &&& !is_true(field(p, "require_code_owner_review"@))
            &&& !is_true(field(p, "require_last_push_approval"@))
            &&& all_items(field(p, "required_reviewers"@)).len() == 0
        },
        first_kind_at(v, "required_status_checks"@, k) && field(rules_of(v)[k], "parameters"@) is Some
            && check_contexts(field(rules_of(v)[k], "parameters"@)).contains(x) ==> x
            == "bonsai compliance"@,
{
    kind_from(v, "pull_request"@, 0);
    kind_from(v, "required_status_checks"@, 0);
    one_first(v, "pull_request"@);
    one_first(v, "required_status_checks"@);
    if 0 <= i < rules_of(v).len() {
        assert(crate::ruleset::known_rule(rules_of(v)[i]));
        let all = crate::ruleset::known_kinds();
        let kind = text_of(field(rules_of(v)[i], "type"@))->0;
        let j = choose|j: int| 0 <= j < all.len() && all[j] == kind;
        assert(all[0] == "deletion"@ && all[1] == "non_fast_forward"@ && all[2] == "pull_request"@
            && all[3] == "required_status_checks"@);
    }
    if first_kind_at(v, "required_status_checks"@, k) && field(rules_of(v)[k], "parameters"@) is Some
        && check_contexts(field(rules_of(v)[k], "parameters"@)).contains(x) {
        let cs = check_contexts(field(rules_of(v)[k], "parameters"@));
        let j = choose|j: int| 0 <= j < cs.len() && cs[j] == x;
        let only = seq!["bonsai compliance"@];
        assert(only.contains(cs[j]));
        let m = choose|m: int| 0 <= m < only.len() && only[m] == x;
    }
}

} // verus!
