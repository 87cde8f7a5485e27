//! What is asked of GitHub and sent to it, request by request: each answer decides what comes
//! next.
use vstd::prelude::*;

use crate::github::{
    all_seen, branch_of, default_branch, evaluate, ids_of, observation_of, observed, ruleset_ids,
    standing_rules, unseen_is_unknown, verdict_of, GithubPolicy, Observation, PolicyFault, Verdict,
    RULESET_NAME,
};
use crate::order::{canonical, sorted_set_is_canonical};
use crate::ruleset::{
    actions_body, actions_need_update, existing_ruleset, lax_actions, preflight_refusal,
    replace_refusal, replaceable, standard_ruleset, standard_ruleset_payload, standing_ruleset,
    strict_actions, token_refusal, SECURITY_BODY,
};
use crate::text::{cat2, cat3, dec_int, decimal_i64, joined, text_opt, texts};
use crate::value::Json;

verus! {

// ── where requests go ──────────────────────────────────────────────────────────────────

/// The path of the repository of a policy.
pub open spec fn repository_path(policy: GithubPolicy) -> Seq<char> {
    "/repos/"@ + policy.repository@
}

/// The path of the settings of its actions.
pub open spec fn actions_path(policy: GithubPolicy) -> Seq<char> {
    repository_path(policy) + "/actions/permissions"@
}

/// The path of its rulesets.
pub open spec fn rulesets_path(policy: GithubPolicy) -> Seq<char> {
    repository_path(policy) + "/rulesets"@
}

/// The path of one of its rulesets.
pub open spec fn ruleset_path(policy: GithubPolicy, id: i64) -> Seq<char> {
    repository_path(policy) + "/rulesets/"@ + dec_int(id as int)
}

fn to_repository(policy: &GithubPolicy) -> (r: String)
    ensures
        r@ == repository_path(*policy),
{
    cat2("/repos/", policy.repository.as_str())
}

fn to_actions(policy: &GithubPolicy) -> (r: String)
    ensures
        r@ == actions_path(*policy),
{
    cat2(to_repository(policy).as_str(), "/actions/permissions")
}

fn to_rulesets(policy: &GithubPolicy) -> (r: String)
    ensures
        r@ == rulesets_path(*policy),
{
    cat2(to_repository(policy).as_str(), "/rulesets")
}

fn to_ruleset(policy: &GithubPolicy, id: i64) -> (r: String)
    ensures
        r@ == ruleset_path(*policy, id),
{
    cat3(to_repository(policy).as_str(), "/rulesets/", decimal_i64(id).as_str())
}

// ── the survey of a repository ─────────────────────────────────────────────────────────

/// What has been answered about a repository, and with it which answer is awaited.
#[derive(Debug)]
pub enum Survey {
    /// The answer about the repository itself.
    Repository,
    /// The answer about its actions.
    Actions { repo: Json, branch: String },
    /// The list of its rulesets.
    Rulesets { repo: Json, branch: String, actions: Json },
    /// The details of the next of its rulesets.
    Details { repo: Json, branch: String, actions: Json, ids: Vec<i64>, details: Vec<Json> },
}

/// What follows from an answer.
#[derive(Debug)]
pub enum Inquiry {
    /// The path is asked for next.
    Ask(Survey, String),
    /// The repository has no default branch, in words.
    Nameless(String),
    /// All is answered.
    Seen(Observation),
}

/// What follows once the ids of the rulesets are known and the details of some were answered:
/// the next ruleset is asked for, or nothing is left to ask.
pub open spec fn details_follow(
    policy: GithubPolicy,
    branch: Seq<char>,
    repo: Json,
    actions: Json,
    ids: Seq<i64>,
    details: Seq<Json>,
    q: Inquiry,
) -> bool {
    if details.len() < ids.len() {
        match q {
            Inquiry::Ask(Survey::Details { repo: r, branch: b, actions: a, ids: i, details: d }, p) => {
                &&& r == repo
                &&& b@ == branch
                &&& a == actions
                &&& i@ == ids
                &&& d@ == details
                &&& p@ == ruleset_path(policy, ids[details.len() as int])
            },
            _ => false,
        }
    } else {
        q matches Inquiry::Seen(o) && observed(o, policy, branch, repo, actions, details)
    }
}

impl Survey {
    /// What follows from an answer to a survey that stands here.
    pub open spec fn follows(self, policy: GithubPolicy, reply: Json, q: Inquiry) -> bool {
        match self {
            Survey::Repository => match branch_of(reply) {
                None => q matches Inquiry::Nameless(m) && m@
                    == "GitHub did not return a default branch for "@ + policy.repository@,
                Some(name) => match q {
                    Inquiry::Ask(Survey::Actions { repo, branch }, p) => repo == reply && branch@
                        == name && p@ == actions_path(policy),
                    _ => false,
                },
            },
            Survey::Actions { repo, branch } => match q {
                Inquiry::Ask(Survey::Rulesets { repo: r, branch: b, actions }, p) => r == repo && b
                    == branch && actions == reply && p@ == rulesets_path(policy),
                _ => false,
            },
            Survey::Rulesets { repo, branch, actions } => details_follow(
                policy,
                branch@,
                repo,
                actions,
                ids_of(reply),
                Seq::empty(),
                q,
            ),
            Survey::Details { repo, branch, actions, ids, details } => details_follow(
                policy,
                branch@,
                repo,
                actions,
                ids@,
                details@.push(reply),
                q,
            ),
        }
    }

    /// How a survey starts: with the repository, unless something is wrong with the policy.
    pub fn begin(policy: &GithubPolicy) -> (r: Result<(Survey, String), PolicyFault>)
        ensures
            match r {
                Ok((s, path)) => policy.fault() is None && s == Survey::Repository && path@
                    == repository_path(*policy),
                Err(f) => policy.fault() == Some(f),
            },
    {
        match policy.validate() {
            Ok(_) => Ok((Survey::Repository, to_repository(policy))),
            Err(f) => Err(f),
        }
    }

    fn next_detail(
        policy: &GithubPolicy,
        repo: Json,
        branch: String,
        actions: Json,
        ids: Vec<i64>,
        details: Vec<Json>,
    ) -> (r: Inquiry)
        ensures
            details_follow(*policy, branch@, repo, actions, ids@, details@, r),
    {
        if details.len() < ids.len() {
            let path = to_ruleset(policy, ids[details.len()]);
            Inquiry::Ask(Survey::Details { repo, branch, actions, ids, details }, path)
        } else {
            Inquiry::Seen(observation_of(policy, branch.as_str(), &repo, &actions, &details))
        }
    }

    /// Takes an answer, and says what follows from it.
    pub fn step(self, policy: &GithubPolicy, reply: Json) -> (r: Inquiry)
        ensures
            self.follows(*policy, reply, r),
    {
        match self {
            Survey::Repository => match default_branch(&reply) {
                None => Inquiry::Nameless(
                    cat2(
                        "GitHub did not return a default branch for ",
                        policy.repository.as_str(),
                    ),
                ),
                Some(branch) => Inquiry::Ask(
                    Survey::Actions { repo: reply, branch },
                    to_actions(policy),
                ),
            },
            Survey::Actions { repo, branch } => Inquiry::Ask(
                Survey::Rulesets { repo, branch, actions: reply },
                to_rulesets(policy),
            ),
            Survey::Rulesets { repo, branch, actions } => {
                let ids = ruleset_ids(&reply);
                Survey::next_detail(policy, repo, branch, actions, ids, Vec::new())
            },
            Survey::Details { repo, branch, actions, ids, details } => {
                let mut answered = details;
                answered.push(reply);
                Survey::next_detail(policy, repo, branch, actions, ids, answered)
            },
        }
    }
}

// ── the rollout of the standard ────────────────────────────────────────────────────────

/// How something is sent.
#[derive(Debug, Clone, Copy, PartialEq, Eq, Structural)]
pub enum Verb {
    Post,
    Put,
    Patch,
}

/// What is sent.
#[derive(Debug)]
pub enum Body {
    Value(Json),
    /// The text of a JSON value.
    Text(String),
}

/// What is done next.
#[derive(Debug)]
pub enum Action {
    /// The path is asked for.
    Get(String),
    /// Something is changed.
    Send(Verb, String, Body),
    /// Nothing more is changed, for the reason given.
    Refuse(String),
    /// All is changed that has to be.
    Done,
    /// Nothing is left to do.
    Rest,
}

/// How far the rollout is: which answer it awaits.
#[derive(Debug)]
pub enum Rollout {
    /// The answers about the repository.
    Surveying(Survey),
    /// The list of rulesets.
    Listing { lax: bool },
    /// The ruleset that is to be replaced.
    Comparing { lax: bool, id: i64 },
    /// The answer to the standard ruleset.
    Protecting { lax: bool },
    /// The settings of the actions.
    Reading,
    /// The answer to the new settings of the actions.
    Allowing,
    /// The answer to the new security settings.
    Securing,
    /// None.
    Over,
}

/// Whether an action sends the standard ruleset.
pub open spec fn sends_standard(a: Action, verb: Verb, path: Seq<char>) -> bool {
    a matches Action::Send(v, p, Body::Value(j)) && v == verb && p@ == path && standard_ruleset(j)
}

/// Whether an action sends a text.
pub open spec fn sends_text(a: Action, verb: Verb, path: Seq<char>, text: Seq<char>) -> bool {
    a matches Action::Send(v, p, Body::Text(t)) && v == verb && p@ == path && t@ == text
}

/// Whether an action asks for a path.
pub open spec fn asks(a: Action, path: Seq<char>) -> bool {
    a matches Action::Get(p) && p@ == path
}

/// Whether an action refuses in these words.
pub open spec fn refuses(a: Action, words: Seq<char>) -> bool {
    a matches Action::Refuse(m) && m@ == words
}

/// Whether an action switches the security settings on.
pub open spec fn secures(policy: GithubPolicy, a: Action) -> bool {
    sends_text(a, Verb::Patch, repository_path(policy), SECURITY_BODY@)
}

/// What follows from what the survey says.
pub open spec fn survey_follows(policy: GithubPolicy, q: Inquiry, next: Rollout, a: Action) -> bool {
    match q {
        Inquiry::Ask(s, path) => next == Rollout::Surveying(s) && asks(a, path@),
        Inquiry::Nameless(m) => next == Rollout::Over && refuses(a, m@),
        Inquiry::Seen(o) => if verdict_of(standing_rules(policy, o)) == Verdict::Unknown {
            &&& next == Rollout::Over
            &&& refuses(
                a,
                "refusing GitHub mutation while required controls are unknown: "@ + joined(
                    canonical(standing_rules(policy, o)),
                    ", "@,
                ),
            )
        } else {
            next == Rollout::Listing { lax: lax_actions(o) } && asks(a, rulesets_path(policy))
        },
    }
}

impl Rollout {
    /// How the rollout starts.
    pub open spec fn starts(policy: GithubPolicy, has_token: bool, next: Rollout, a: Action) -> bool {
        if !has_token {
            &&& next == Rollout::Over
            &&& refuses(a, "refusing GitHub mutation without BONSAI_GITHUB_TOKEN or GITHUB_TOKEN"@)
        } else {
            match policy.fault() {
                Some(f) => next == Rollout::Over && refuses(a, f.words()),
                None => next == Rollout::Surveying(Survey::Repository) && asks(
                    a,
                    repository_path(policy),
                ),
            }
        }
    }

    /// What follows from an answer to a rollout that stands here.
    pub open spec fn follows(
        self,
        policy: GithubPolicy,
        reply: Json,
        next: Rollout,
        a: Action,
    ) -> bool {
        match self {
            Rollout::Surveying(s) => exists|q: Inquiry| #[trigger]
                s.follows(policy, reply, q) && survey_follows(policy, q, next, a),
            Rollout::Listing { lax } => match standing_ruleset(reply) {
                Some(id) => next == Rollout::Comparing { lax, id } && asks(
                    a,
                    ruleset_path(policy, id),
                ),
                None => next == Rollout::Protecting { lax } && sends_standard(
                    a,
                    Verb::Post,
                    rulesets_path(policy),
                ),
            },
            Rollout::Comparing { lax, id } => if replaceable(reply) {
                next == Rollout::Protecting { lax } && sends_standard(
                    a,
                    Verb::Put,
                    ruleset_path(policy, id),
                )
            } else {
                &&& next == Rollout::Over
                &&& refuses(
                    a,
                    "refusing to replace a stronger or extended "@ + RULESET_NAME@
                        + " ruleset; preserve its controls manually before applying standard-v1"@,
                )
            },
            Rollout::Protecting { lax } => if lax {
                next == Rollout::Reading && asks(a, actions_path(policy))
            } else {
                next == Rollout::Securing && secures(policy, a)
            },
            Rollout::Reading => next == Rollout::Allowing && sends_text(
                a,
                Verb::Put,
                actions_path(policy),
                strict_actions(reply),
            ),
            Rollout::Allowing => next == Rollout::Securing && secures(policy, a),
            Rollout::Securing => next == Rollout::Over && a == Action::Done,
            Rollout::Over => next == Rollout::Over && a == Action::Rest,
        }
    }

    /// Starts the rollout.
    pub fn begin(policy: &GithubPolicy, has_token: bool) -> (r: (Rollout, Action))
        ensures
            Rollout::starts(*policy, has_token, r.0, r.1),
    {
        match token_refusal(has_token) {
            Some(m) => {
                return (Rollout::Over, Action::Refuse(m));
            },
            None => {},
        }
        match Survey::begin(policy) {
            Ok((s, path)) => (Rollout::Surveying(s), Action::Get(path)),
            Err(f) => (Rollout::Over, Action::Refuse(f.message())),
        }
    }

    fn surveyed(policy: &GithubPolicy, q: Inquiry) -> (r: (Rollout, Action))
        ensures
            survey_follows(*policy, q, r.0, r.1),
    {
        match q {
            Inquiry::Ask(s, path) => (Rollout::Surveying(s), Action::Get(path)),
            Inquiry::Nameless(m) => (Rollout::Over, Action::Refuse(m)),
            Inquiry::Seen(o) => {
                let report = evaluate(policy, &o);
                proof {
                    sorted_set_is_canonical(texts(report.rules@), standing_rules(*policy, o));
                }
                match preflight_refusal(&report) {
                    Some(m) => (Rollout::Over, Action::Refuse(m)),
                    None => (
                        Rollout::Listing { lax: actions_need_update(&o) },
                        Action::Get(to_rulesets(policy)),
                    ),
                }
            },
        }
    }

    fn secure(policy: &GithubPolicy) -> (r: Action)
        ensures
            secures(*policy, r),
    {
        Action::Send(Verb::Patch, to_repository(policy), Body::Text(SECURITY_BODY.to_owned()))
    }

    /// Takes an answer, and says what is done next.
    pub fn step(self, policy: &GithubPolicy, reply: Json) -> (r: (Rollout, Action))
        ensures
            self.follows(*policy, reply, r.0, r.1),
    {
        match self {
            Rollout::Surveying(s) => {
                let q = s.step(policy, reply);
                Rollout::surveyed(policy, q)
            },
            Rollout::Listing { lax } => match existing_ruleset(&reply) {
                Some(id) => (
                    Rollout::Comparing { lax, id },
                    Action::Get(to_ruleset(policy, id)),
                ),
                None => (
                    Rollout::Protecting { lax },
                    Action::Send(
                        Verb::Post,
                        to_rulesets(policy),
                        Body::Value(standard_ruleset_payload()),
                    ),
                ),
            },
            Rollout::Comparing { lax, id } => match replace_refusal(&reply) {
                Some(m) => (Rollout::Over, Action::Refuse(m)),
                None => (
                    Rollout::Protecting { lax },
                    Action::Send(
                        Verb::Put,
                        to_ruleset(policy, id),
                        Body::Value(standard_ruleset_payload()),
                    ),
                ),
            },
            Rollout::Protecting { lax } => if lax {
                (Rollout::Reading, Action::Get(to_actions(policy)))
            } else {
                (Rollout::Securing, Rollout::secure(policy))
            },
            Rollout::Reading => {
                let body = actions_body(&reply);
                (
                    Rollout::Allowing,
                    Action::Send(Verb::Put, to_actions(policy), Body::Text(body)),
                )
            },
            Rollout::Allowing => (Rollout::Securing, Rollout::secure(policy)),
            Rollout::Securing => (Rollout::Over, Action::Done),
            Rollout::Over => (Rollout::Over, Action::Rest),
        }
    }
}

// ── what holds of every run ────────────────────────────────────────────────────────────

/// A run of the rollout: where it stood, what was done there, and what was answered.
pub struct Run {
    pub stages: Seq<Rollout>,
    pub actions: Seq<Action>,
    pub replies: Seq<Json>,
}

/// Whether an answer ends the survey with every control seen.
pub open spec fn passes_preflight(
    policy: GithubPolicy,
    stage: Rollout,
    reply: Json,
    o: Observation,
) -> bool {
    stage matches Rollout::Surveying(s) && s.follows(policy, reply, Inquiry::Seen(o)) && all_seen(o)
}

/// Whether an answer shows that no ruleset stands in the way, or one that may be replaced.
pub open spec fn passes_comparison(stage: Rollout, reply: Json) -> bool {
    match stage {
        Rollout::Listing { .. } => standing_ruleset(reply) is None,
        Rollout::Comparing { .. } => replaceable(reply),
        _ => false,
    }
}

/// Whether the rollout has not sent anything yet, and may still refuse to.
pub open spec fn checking(stage: Rollout) -> bool {
    stage is Surveying || stage is Listing || stage is Comparing
}

/// Whether an action sends the standard ruleset, as a new one or in place of another.
pub open spec fn protects_by_standard(policy: GithubPolicy, a: Action) -> bool {
    ||| sends_standard(a, Verb::Post, rulesets_path(policy))
    ||| exists|id: i64| sends_standard(a, Verb::Put, #[trigger] ruleset_path(policy, id))
}

/// Whether an action switches the actions on and pins them, whichever were allowed.
pub open spec fn restricts_actions(policy: GithubPolicy, a: Action) -> bool {
    exists|current: Json|
        sends_text(a, Verb::Put, actions_path(policy), #[trigger] strict_actions(current))
}

impl Run {
    /// Whether this is how the rollout runs: it starts as it does, and each answer is followed
    /// by what it leads to.
    pub open spec fn happens(self, policy: GithubPolicy, has_token: bool) -> bool {
        &&& self.stages.len() == self.replies.len() + 1
        &&& self.actions.len() == self.stages.len()
        &&& Rollout::starts(policy, has_token, self.stages[0], self.actions[0])
        &&& forall|i: int|
            0 <= i < self.replies.len() ==> self.stages[i].follows(
                policy,
                #[trigger] self.replies[i],
                self.stages[i + 1],
                self.actions[i + 1],
            )
    }

    /// Whether the preflight was passed before step `i`, with the actions found lax or not.
    pub open spec fn preflight_before(self, policy: GithubPolicy, i: int, lax: bool) -> bool {
        exists|j: int, o: Observation|
            0 <= j < i && #[trigger] passes_preflight(policy, self.stages[j], self.replies[j], o)
                && lax_actions(o) == lax
    }

    /// Whether the comparison with the ruleset that is there was passed before step `i`.
    pub open spec fn comparison_before(self, i: int) -> bool {
        exists|k: int|
            0 <= k < i && #[trigger] passes_comparison(self.stages[k], self.replies[k])
    }

    /// Whether the standard ruleset was sent by step `i`.
    pub open spec fn protected_by(self, policy: GithubPolicy, i: int) -> bool {
        exists|k: int| 0 <= k <= i && protects_by_standard(policy, #[trigger] self.actions[k])
    }

    /// Whether the new settings of the actions were sent by step `i`.
    pub open spec fn restricted_by(self, policy: GithubPolicy, i: int) -> bool {
        exists|k: int| 0 <= k <= i && restricts_actions(policy, #[trigger] self.actions[k])
    }

    /// What is known of a run at step `i`.
    pub open spec fn stands(self, policy: GithubPolicy, has_token: bool, i: int) -> bool {
        &&& checking(self.stages[i]) ==> forall|j: int|
            0 <= j <= i ==> (#[trigger] self.actions[j]) !is Send
        &&& self.stages[i] !is Over ==> has_token && policy.fault() is None
        &&& match self.stages[i] {
            Rollout::Listing { lax } => self.preflight_before(policy, i, lax),
            Rollout::Comparing { lax, .. } => self.preflight_before(policy, i, lax),
            Rollout::Protecting { lax } => {
                &&& self.preflight_before(policy, i, lax)
                &&& self.comparison_before(i)
                &&& self.protected_by(policy, i)
            },
            Rollout::Reading => {
                &&& self.preflight_before(policy, i, true)
                &&& self.comparison_before(i)
                &&& self.protected_by(policy, i)
            },
            Rollout::Allowing => {
                &&& self.preflight_before(policy, i, true)
                &&& self.comparison_before(i)
                &&& self.protected_by(policy, i)
                &&& self.restricted_by(policy, i)
            },
            Rollout::Securing => {
                &&& self.preflight_before(policy, i, false) || (self.preflight_before(
                    policy,
                    i,
                    true,
                ) && self.restricted_by(policy, i))
                &&& self.comparison_before(i)
                &&& self.protected_by(policy, i)
                &&& secures(policy, self.actions[i])
            },
            _ => true,
        }
    }
}

proof fn run_keeps(run: Run, policy: GithubPolicy, i: int)
    ensures
        forall|lax: bool|
            run.preflight_before(policy, i, lax) ==> #[trigger] run.preflight_before(
                policy,
                i + 1,
                lax,
            ),
        run.comparison_before(i) ==> run.comparison_before(i + 1),
        run.protected_by(policy, i) ==> run.protected_by(policy, i + 1),
        run.restricted_by(policy, i) ==> run.restricted_by(policy, i + 1),
{
}

/// One step keeps what is known of a run.
#[verifier::spinoff_prover]
#[verifier::rlimit(60)]
proof fn run_steps(run: Run, policy: GithubPolicy, has_token: bool, i: int)
    requires
        run.happens(policy, has_token),
        0 <= i < run.replies.len(),
        run.stands(policy, has_token, i),
    ensures
        run.stands(policy, has_token, i + 1),
{
    let reply = run.replies[i];
    let next = run.stages[i + 1];
    let a = run.actions[i + 1];
    assert(run.stages[i].follows(policy, reply, next, a));
    run_keeps(run, policy, i);
    match run.stages[i] {
        Rollout::Surveying(s) => {
            let q = choose|q: Inquiry| #[trigger]
                s.follows(policy, reply, q) && survey_follows(policy, q, next, a);
            match q {
                Inquiry::Seen(o) => {
                    unseen_is_unknown(policy, o);
                    if all_seen(o) {
                        assert(passes_preflight(policy, run.stages[i], run.replies[i], o));
                        assert(run.preflight_before(policy, i + 1, lax_actions(o)));
                    }
                },
                _ => {},
            }
        },
        Rollout::Listing { lax } => {
            if standing_ruleset(reply) is None {
                assert(passes_comparison(run.stages[i], run.replies[i]));
                assert(protects_by_standard(policy, run.actions[i + 1]));
            }
        },
        Rollout::Comparing { lax, id } => {
            if replaceable(reply) {
                assert(passes_comparison(run.stages[i], run.replies[i]));
                assert(sends_standard(a, Verb::Put, ruleset_path(policy, id)));
                assert(protects_by_standard(policy, run.actions[i + 1]));
            }
        },
        Rollout::Reading => {
            assert(sends_text(a, Verb::Put, actions_path(policy), strict_actions(reply)));
            assert(restricts_actions(policy, run.actions[i + 1]));
        },
        _ => {},
    }
}

proof fn run_stands(run: Run, policy: GithubPolicy, has_token: bool, i: int)
    requires
        run.happens(policy, has_token),
        0 <= i < run.stages.len(),
    ensures
        run.stands(policy, has_token, i),
    decreases i,
{
    if i > 0 {
        run_stands(run, policy, has_token, i - 1);
        run_steps(run, policy, has_token, i - 1);
    }
}

/// Nothing is sent before the token, the policy, the preflight and the comparison with the
/// ruleset that is there have passed.
pub proof fn sent_only_when_checked(run: Run, policy: GithubPolicy, has_token: bool, i: int)
    requires
        run.happens(policy, has_token),
        0 <= i < run.actions.len(),
        run.actions[i] is Send,
    ensures
        has_token,
        policy.fault() is None,
        run.preflight_before(policy, i, true) || run.preflight_before(policy, i, false),
        run.comparison_before(i),
{
    run_stands(run, policy, has_token, i);
    if i > 0 {
        let reply = run.replies[i - 1];
        assert(run.stages[i - 1].follows(policy, reply, run.stages[i], run.actions[i]));
    }
}

proof fn over_stays(run: Run, policy: GithubPolicy, has_token: bool, i: int, j: int)
    requires
        run.happens(policy, has_token),
        0 <= i < j < run.stages.len(),
        run.stages[i] is Over,
    ensures
        run.stages[j] is Over,
        run.actions[j] is Rest,
    decreases j,
{
    if i < j - 1 {
        over_stays(run, policy, has_token, i, j - 1);
    }
    let reply = run.replies[j - 1];
    assert(run.stages[j - 1].follows(policy, reply, run.stages[j], run.actions[j]));
}

/// A run in which anything is refused sends nothing, neither before nor after.
pub proof fn refusal_changes_nothing(
    run: Run,
    policy: GithubPolicy,
    has_token: bool,
    i: int,
    j: int,
)
    requires
        run.happens(policy, has_token),
        0 <= i < run.actions.len(),
        0 <= j < run.actions.len(),
        run.actions[i] is Refuse,
    ensures
        run.actions[j] !is Send,
{
    if i > 0 {
        let reply = run.replies[i - 1];
        assert(run.stages[i - 1].follows(policy, reply, run.stages[i], run.actions[i]));
        run_stands(run, policy, has_token, i - 1);
        assert(checking(run.stages[i - 1]));
    }
    assert(run.stages[i] is Over);
    if i < j {
        over_stays(run, policy, has_token, i, j);
    }
}

/// A run that is done has sent the standard ruleset, the new settings of the actions where they
/// were lax, and last the security settings.
pub proof fn done_is_all(run: Run, policy: GithubPolicy, has_token: bool, i: int)
    requires
        run.happens(policy, has_token),
        0 <= i < run.actions.len(),
        run.actions[i] is Done,
    ensures
        i > 0,
        run.protected_by(policy, i - 1),
        run.preflight_before(policy, i - 1, false) || (run.preflight_before(policy, i - 1, true)
            && run.restricted_by(policy, i - 1)),
        secures(policy, run.actions[i - 1]),
{
    assert(i > 0);
    let reply = run.replies[i - 1];
    assert(run.stages[i - 1].follows(policy, reply, run.stages[i], run.actions[i]));
    run_stands(run, policy, has_token, i - 1);
}

/// Nothing is done any more once a run is done or has refused.
pub proof fn end_is_final(run: Run, policy: GithubPolicy, has_token: bool, i: int, j: int)
    requires
        run.happens(policy, has_token),
        0 <= i < j < run.actions.len(),
        run.actions[i] is Done || run.actions[i] is Refuse,
    ensures
        run.actions[j] is Rest,
{
    if i > 0 {
        let reply = run.replies[i - 1];
        assert(run.stages[i - 1].follows(policy, reply, run.stages[i], run.actions[i]));
    }
    over_stays(run, policy, has_token, i, j);
}

/// How far a stage is from the end: how many answers it awaits at most, the survey apart.
pub open spec fn answers_left(stage: Rollout) -> int {
    match stage {
        Rollout::Surveying(_) => 7,
        Rollout::Listing { .. } => 6,
        Rollout::Comparing { .. } => 5,
        Rollout::Protecting { .. } => 4,
        Rollout::Reading => 3,
        Rollout::Allowing => 2,
        Rollout::Securing => 1,
        Rollout::Over => 0,
    }
}

/// How many answers a survey awaits at most, once the rulesets are listed.
pub open spec fn details_left(s: Survey) -> int {
    match s {
        Survey::Details { ids, details, .. } => ids@.len() - details@.len(),
        _ => 0,
    }
}

/// Every answer brings a run nearer to its end: to a later stage, or within the survey to a
/// later question or to fewer rulesets left to look at.
pub proof fn answers_lead_on(
    policy: GithubPolicy,
    stage: Rollout,
    reply: Json,
    next: Rollout,
    a: Action,
)
    requires
        stage.follows(policy, reply, next, a),
        stage !is Over,
    ensures
        match (stage, next) {
            (Rollout::Surveying(s), Rollout::Surveying(t)) => match (s, t) {
                (Survey::Repository, Survey::Actions { .. }) => true,
                (Survey::Actions { .. }, Survey::Rulesets { .. }) => true,
                (Survey::Rulesets { .. }, Survey::Details { .. }) => details_left(t) > 0,
                (Survey::Details { .. }, Survey::Details { .. }) => 0 < details_left(t)
                    < details_left(s),
                _ => false,
            },
            _ => answers_left(next) < answers_left(stage),
        },
{
    match stage {
        Rollout::Surveying(s) => {
            let q = choose|q: Inquiry| #[trigger]
                s.follows(policy, reply, q) && survey_follows(policy, q, next, a);
            assert(s.follows(policy, reply, q));
        },
        _ => {},
    }
}

} // verus!
