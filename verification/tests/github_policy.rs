//! What a repository is held to on GitHub.
use bonsai::github::{
    evaluate, extended_config, finalize_report, is_configured, managed_drift, managed_files,
    observation_of, parse_ruleset, policy_drift, ruleset_ids, unknown_report, GithubPolicy,
    Observation, PolicyFault, Profile, RulesetObservation, REQUIRED_CHECK, RULESET_NAME,
};
use bonsai::ruleset::{
    actions_body, actions_need_update, existing_ruleset, preflight_refusal, replace_refusal,
    safe_to_replace_ruleset, standard_ruleset_payload, token_refusal,
};
use bonsai::value::Json;

fn standard_policy() -> GithubPolicy {
    GithubPolicy::standard("example/widget".into())
}

fn compliant() -> Observation {
    Observation {
        repository: "example/widget".into(),
        default_branch: "main".into(),
        actions_enabled: true,
        sha_pinning_required: true,
        dependabot_security_updates: Some(true),
        secret_scanning: Some(true),
        push_protection: Some(true),
        ruleset_visibility_complete: true,
        rulesets: vec![RulesetObservation {
            name: "bonsai-standard-v1".into(),
            enforcement: "active".into(),
            targets_default_branch: true,
            bypass_actors: 0,
            blocks_deletion: true,
            blocks_non_fast_forward: true,
            pull_request_required: true,
            approvals: 1,
            dismisses_stale_reviews: true,
            resolves_threads: true,
            extra_approval_for_unattributed_changes: true,
            strict_required_checks: true,
            required_checks: vec!["bonsai compliance".into()],
        }],
    }
}

#[test]
fn standard_profile_accepts_complete_effective_protection() {
    let report = evaluate(&standard_policy(), &compliant());
    assert!(report.is_pass(), "{report:?}");
}

#[test]
fn standard_profile_rejects_bypass_and_missing_required_check() {
    let mut observation = compliant();
    observation.rulesets[0].bypass_actors = 1;
    observation.rulesets[0].required_checks.clear();
    let report = evaluate(&standard_policy(), &observation);
    assert!(report.rules.iter().any(|rule| rule == "github-no-bypass"));
    assert!(report
        .rules
        .iter()
        .any(|rule| rule == "github-required-check"));
}

#[test]
fn unknown_security_observation_never_claims_compliance() {
    let mut observation = compliant();
    observation.secret_scanning = None;
    let report = evaluate(&standard_policy(), &observation);
    assert!(report.is_unknown());
}

#[test]
fn incomplete_ruleset_visibility_never_claims_compliance() {
    let mut observation = compliant();
    observation.ruleset_visibility_complete = false;
    let report = evaluate(&standard_policy(), &observation);
    assert!(report.is_unknown());
    assert!(report
        .rules
        .iter()
        .any(|rule| rule == "github-ruleset-visibility-unknown"));
}

#[test]
fn only_standard_or_governed_profile_names_are_accepted() {
    assert_eq!(Profile::parse("standard-v1").unwrap(), Profile::StandardV1);
    assert_eq!(Profile::parse("governed-v1").unwrap(), Profile::GovernedV1);
    assert!(Profile::parse("minimal").is_err());
}

#[test]
fn policy_rejects_toml_injection_and_invalid_codeowners() {
    let mut policy = standard_policy();
    policy.repository = "example/widget\n[evil]".into();
    assert!(policy.validate().is_err());

    let mut policy = standard_policy();
    policy.codeowners = vec!["@team\n[evil]".into()];
    assert!(policy.validate().is_err());
}

#[test]
fn a_policy_says_what_is_wrong() {
    assert_eq!(standard_policy().validate(), Ok(()));
    let mut p = standard_policy();
    p.repository = "widget".into();
    assert_eq!(p.validate(), Err(PolicyFault::Repository));
    let mut p = standard_policy();
    p.codeowners = vec!["team".into()];
    assert_eq!(p.validate(), Err(PolicyFault::Codeowners));
    let mut p = standard_policy();
    p.bonsai_source = "github:someone/else".into();
    assert_eq!(p.validate(), Err(PolicyFault::Source));
    let mut p = standard_policy();
    p.bonsai_revision = "main".into();
    assert_eq!(p.validate(), Err(PolicyFault::Revision));
    for f in [
        PolicyFault::Repository,
        PolicyFault::Codeowners,
        PolicyFault::Source,
        PolicyFault::Revision,
    ] {
        assert!(!f.message().is_empty());
    }
}

#[test]
fn the_verdict_does_not_depend_on_the_order_of_rulesets() {
    let mut o = compliant();
    let mut other = o.rulesets[0].clone();
    other.name = "other".into();
    o.rulesets.push(other);
    let a = evaluate(&standard_policy(), &o);
    o.rulesets.reverse();
    let b = evaluate(&standard_policy(), &o);
    assert_eq!(a, b);
}

#[test]
fn every_missing_protection_is_named() {
    let rules = |change: &dyn Fn(&mut Observation)| {
        let mut o = compliant();
        change(&mut o);
        evaluate(&standard_policy(), &o).rules
    };
    assert!(!rules(&|o| o.actions_enabled = false).is_empty());
    assert!(!rules(&|o| o.sha_pinning_required = false).is_empty());
    assert!(!rules(&|o| o.dependabot_security_updates = Some(false)).is_empty());
    assert!(!rules(&|o| o.push_protection = Some(false)).is_empty());
    assert!(!rules(&|o| o.rulesets.clear()).is_empty());
    assert!(!rules(&|o| o.rulesets[0].approvals = 0).is_empty());
    assert!(!rules(&|o| o.rulesets[0].enforcement = "evaluate".into()).is_empty());
    let report = {
        let mut r = unknown_report(&standard_policy(), "github-api-unknown");
        r.rules.push("github-api-unknown".into());
        r.rules.push("a".into());
        finalize_report(&mut r);
        r
    };
    assert!(report.is_unknown());
    assert_eq!(report.rules, vec!["a", "github-api-unknown"]);
}

fn text(s: &str) -> Json {
    Json::Text(s.to_string())
}

fn object(fields: &[(&str, Json)]) -> Json {
    Json::Object(
        fields
            .iter()
            .map(|(k, v)| (k.to_string(), copy(v)))
            .collect(),
    )
}

fn copy(v: &Json) -> Json {
    match v {
        Json::Null => Json::Null,
        Json::Bool(b) => Json::Bool(*b),
        Json::Unsigned(n) => Json::Unsigned(*n),
        Json::Negative(n) => Json::Negative(*n),
        Json::Fraction => Json::Fraction,
        Json::Text(s) => Json::Text(s.clone()),
        Json::List(l) => Json::List(l.iter().map(copy).collect()),
        Json::Object(o) => Json::Object(o.iter().map(|(k, v)| (k.clone(), copy(v))).collect()),
    }
}

fn at<'a>(v: &'a Json, i: usize) -> &'a Json {
    match v {
        Json::List(l) => &l[i],
        _ => panic!("no list"),
    }
}

fn is_text(v: &Json, s: &str) -> bool {
    matches!(v, Json::Text(t) if t == s)
}

#[test]
fn policy_change_in_candidate_is_not_trusted_by_base_workflow() {
    let policy = standard_policy();
    let mut candidate = standard_policy();
    candidate.repository = "attacker/repo".into();
    assert_eq!(
        policy_drift(&Some(candidate), &policy).as_deref(),
        Some("github-policy-drift")
    );
    assert_eq!(policy_drift(&Some(standard_policy()), &policy), None);
}

#[test]
fn standard_ruleset_payload_has_only_safe_baseline_controls() {
    let payload = standard_ruleset_payload();
    assert!(is_text(payload.get("name").unwrap(), RULESET_NAME));
    assert!(matches!(payload.get("bypass_actors"), Some(Json::List(l)) if l.is_empty()));
    let rules = payload.get("rules").unwrap();
    let pull = at(rules, 2).get("parameters").unwrap();
    assert!(matches!(
        pull.get("required_approving_review_count"),
        Some(Json::Unsigned(1))
    ));
    let checks = at(rules, 3).get("parameters").unwrap();
    let first = at(checks.get("required_status_checks").unwrap(), 0);
    assert!(is_text(first.get("context").unwrap(), REQUIRED_CHECK));
    // what the library writes it may also replace, and it protects as the profile asks
    assert!(safe_to_replace_ruleset(&payload));
    let seen = parse_ruleset(&payload, "main");
    let mut o = compliant();
    o.rulesets = vec![seen];
    assert!(evaluate(&standard_policy(), &o).is_pass());
}

#[test]
fn apply_refuses_to_replace_stronger_or_extended_ruleset() {
    let rule = |kind: &str, parameters: Option<Json>| match parameters {
        Some(p) => object(&[("type", text(kind)), ("parameters", p)]),
        None => object(&[("type", text(kind))]),
    };
    let rules = |r: Json| object(&[("rules", Json::List(vec![r]))]);
    let stronger = rules(rule(
        "pull_request",
        Some(object(&[(
            "required_approving_review_count",
            Json::Unsigned(2),
        )])),
    ));
    let extended = rules(rule("required_signatures", None));
    let scoped_reviewers = rules(rule(
        "pull_request",
        Some(object(&[(
            "required_reviewers",
            Json::List(vec![object(&[("team", text("@org/team"))])]),
        )])),
    ));
    let check_binding = rules(rule(
        "required_status_checks",
        Some(object(&[(
            "required_status_checks",
            Json::List(vec![object(&[
                ("context", text(REQUIRED_CHECK)),
                ("integration_id", Json::Unsigned(42)),
            ])]),
        )])),
    ));
    let all_branches = object(&[
        ("rules", Json::List(vec![])),
        ("conditions", object(&[])),
    ]);
    assert!(!safe_to_replace_ruleset(&stronger));
    assert!(!safe_to_replace_ruleset(&extended));
    assert!(!safe_to_replace_ruleset(&scoped_reviewers));
    assert!(!safe_to_replace_ruleset(&check_binding));
    assert!(!safe_to_replace_ruleset(&all_branches));
    let conditions = object(&[(
        "ref_name",
        object(&[
            ("include", Json::List(vec![text("~DEFAULT_BRANCH")])),
            ("exclude", Json::List(vec![])),
        ]),
    )]);
    let fine = object(&[
        ("conditions", conditions),
        (
            "rules",
            Json::List(vec![rule(
                "pull_request",
                Some(object(&[(
                    "required_approving_review_count",
                    Json::Unsigned(0),
                )])),
            )]),
        ),
    ]);
    assert!(safe_to_replace_ruleset(&fine));
    assert_eq!(replace_refusal(&fine), None);
    assert!(replace_refusal(&stronger).is_some());
}

#[test]
fn nothing_is_applied_blindly() {
    assert!(token_refusal(false).is_some());
    assert_eq!(token_refusal(true), None);
    let unknown = unknown_report(&standard_policy(), "github-api-unknown");
    assert!(preflight_refusal(&unknown).is_some());
    assert_eq!(
        preflight_refusal(&evaluate(&standard_policy(), &compliant())),
        None
    );
    assert!(!actions_need_update(&compliant()));
    let mut o = compliant();
    o.sha_pinning_required = false;
    assert!(actions_need_update(&o));
    let body: serde_json::Value =
        serde_json::from_str(&actions_body(&object(&[("allowed_actions", text("all"))]))).unwrap();
    assert_eq!(body["sha_pinning_required"], true);
}

#[test]
fn rulesets_are_found_in_what_is_listed() {
    let list = Json::List(vec![
        object(&[("id", Json::Unsigned(3)), ("name", text("other"))]),
        object(&[("id", Json::Unsigned(7)), ("name", text(RULESET_NAME))]),
        object(&[("name", text("no id"))]),
    ]);
    assert_eq!(ruleset_ids(&list), vec![3, 7]);
    assert_eq!(existing_ruleset(&list), Some(7));
    assert_eq!(existing_ruleset(&Json::Null), None);
    let o = observation_of(
        &standard_policy(),
        "main",
        &object(&[]),
        &object(&[("enabled", Json::Bool(true))]),
        &vec![],
    );
    assert!(o.actions_enabled);
    assert_eq!(o.secret_scanning, None);
    assert!(evaluate(&standard_policy(), &o).is_unknown());
}

#[test]
fn github_init_scaffolds_standard_policy_and_trusted_workflow() {
    let files = managed_files(&standard_policy());
    let of = |path: &str| {
        files
            .iter()
            .find(|(p, _)| p == path)
            .map(|(_, t)| t.clone())
    };
    let workflow = of(".github/workflows/bonsai-compliance.yml").unwrap();
    assert!(workflow.contains("pull_request_target:"));
    assert!(!workflow.contains("branches:"));
    assert!(workflow.contains("bonsai compliance"));
    assert!(workflow.contains("persist-credentials: false"));
    assert!(workflow
        .contains("actions/create-github-app-token@bcd2ba49218906704ab6c1aa796996da409d3eb1"));
    assert!(of("SECURITY.md").is_some());
    assert!(of(".github/dependabot.yml").is_some());
    assert!(of(".github/pull_request_template.md").is_some());
    assert!(of(".github/CODEOWNERS").is_none());
    assert!(!is_configured("[bonsai]\nroot = \".\"\n"));
    assert!(is_configured("[bonsai]\n  [github]  \n"));
    assert_eq!(extended_config("a\n\n", "\n[github]\n"), "a\n[github]\n");
}

#[test]
fn github_init_records_explicit_codeowners_without_guessing_identity() {
    let mut policy = standard_policy();
    policy.codeowners = vec!["@example/maintainers".into()];
    let files = managed_files(&policy);
    let owners = files
        .iter()
        .find(|(p, _)| p == ".github/CODEOWNERS")
        .unwrap();
    assert_eq!(owners.1, "* @example/maintainers\n");
}

#[test]
fn drift_of_managed_files_is_named() {
    let policy = standard_policy();
    let files = managed_files(&policy);
    let mut actual: Vec<Option<String>> = files.iter().map(|(_, t)| Some(t.clone())).collect();
    assert!(managed_drift(&policy, &actual).is_empty());
    actual[0] = None;
    actual[1] = Some("human-owned\n".into());
    assert_eq!(managed_drift(&policy, &actual).len(), 2);
}
