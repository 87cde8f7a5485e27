//! The survey of a repository on GitHub, and the rollout of the standard to it.
use bonsai::github::{GithubPolicy, RULESET_NAME};
use bonsai::rollout::{Action, Body, Inquiry, Rollout, Survey, Verb};
use bonsai::ruleset::{standard_ruleset_payload, SECURITY_BODY};
use bonsai::value::Json;

fn policy() -> GithubPolicy {
    GithubPolicy::standard("example/widget".into())
}

fn text(s: &str) -> Json {
    Json::Text(s.to_string())
}

fn object(fields: Vec<(&str, Json)>) -> Json {
    Json::Object(fields.into_iter().map(|(k, v)| (k.to_string(), v)).collect())
}

fn status(s: &str) -> Json {
    object(vec![("status", text(s))])
}

/// The answer about a repository that shows its secret scanning, or not.
fn repository(shows_scanning: bool) -> Json {
    let scanning = if shows_scanning {
        status("enabled")
    } else {
        object(vec![])
    };
    object(vec![
        ("default_branch", text("main")),
        (
            "security_and_analysis",
            object(vec![
                ("dependabot_security_updates", status("enabled")),
                ("secret_scanning", scanning),
                ("secret_scanning_push_protection", status("disabled")),
            ]),
        ),
    ])
}

fn actions(pinned: bool) -> Json {
    object(vec![
        ("enabled", Json::Bool(true)),
        ("allowed_actions", text("selected")),
        ("sha_pinning_required", Json::Bool(pinned)),
    ])
}

fn listed(entries: &[(u64, &str)]) -> Json {
    Json::List(
        entries
            .iter()
            .map(|(id, name)| object(vec![("id", Json::Unsigned(*id)), ("name", text(name))]))
            .collect(),
    )
}

fn stronger() -> Json {
    object(vec![(
        "rules",
        Json::List(vec![object(vec![("type", text("required_signatures"))])]),
    )])
}

/// What is done, in short.
fn shown(a: &Action) -> String {
    match a {
        Action::Get(path) => format!("GET {path}"),
        Action::Send(verb, path, Body::Value(_)) => format!("{verb:?} {path} value"),
        Action::Send(verb, path, Body::Text(body)) => format!("{verb:?} {path} {body}"),
        Action::Refuse(message) => format!("refused: {message}"),
        Action::Done => "done".to_string(),
        Action::Rest => "rest".to_string(),
    }
}

/// All that is done where these answers come.
fn run(has_token: bool, replies: Vec<Json>) -> Vec<String> {
    let policy = policy();
    let (mut rollout, action) = Rollout::begin(&policy, has_token);
    let mut done = vec![shown(&action)];
    for reply in replies {
        let (next, action) = rollout.step(&policy, reply);
        rollout = next;
        done.push(shown(&action));
    }
    done
}

#[test]
fn a_rollout_asks_before_it_sends() {
    let done = run(
        true,
        vec![
            repository(true),
            actions(true),
            listed(&[]),
            listed(&[]),
            Json::Null,
            Json::Null,
            Json::Null,
        ],
    );
    assert_eq!(
        done,
        vec![
            "GET /repos/example/widget".to_string(),
            "GET /repos/example/widget/actions/permissions".to_string(),
            "GET /repos/example/widget/rulesets".to_string(),
            "GET /repos/example/widget/rulesets".to_string(),
            "Post /repos/example/widget/rulesets value".to_string(),
            format!("Patch /repos/example/widget {SECURITY_BODY}"),
            "done".to_string(),
            "rest".to_string(),
        ]
    );
}

#[test]
fn a_rollout_replaces_the_standard_ruleset_and_pins_the_actions() {
    let done = run(
        true,
        vec![
            repository(true),
            actions(false),
            listed(&[(3, "other"), (7, RULESET_NAME)]),
            object(vec![("bypass_actors", Json::List(vec![]))]),
            object(vec![("bypass_actors", Json::List(vec![]))]),
            listed(&[(3, "other"), (7, RULESET_NAME)]),
            standard_ruleset_payload(),
            Json::Null,
            actions(false),
            Json::Null,
            Json::Null,
        ],
    );
    assert_eq!(
        done[2..],
        [
            "GET /repos/example/widget/rulesets".to_string(),
            "GET /repos/example/widget/rulesets/3".to_string(),
            "GET /repos/example/widget/rulesets/7".to_string(),
            "GET /repos/example/widget/rulesets".to_string(),
            "GET /repos/example/widget/rulesets/7".to_string(),
            "Put /repos/example/widget/rulesets/7 value".to_string(),
            "GET /repos/example/widget/actions/permissions".to_string(),
            "Put /repos/example/widget/actions/permissions {\"enabled\":true,\"allowed_actions\":\"selected\",\"sha_pinning_required\":true}".to_string(),
            format!("Patch /repos/example/widget {SECURITY_BODY}"),
            "done".to_string(),
        ]
    );
}

#[test]
fn what_is_sent_is_the_standard_ruleset() {
    let policy = policy();
    let (rollout, action) = Rollout::Listing { lax: false }.step(&policy, listed(&[]));
    assert!(matches!(rollout, Rollout::Protecting { lax: false }));
    match action {
        Action::Send(Verb::Post, _, Body::Value(sent)) => {
            assert_eq!(format!("{sent:?}"), format!("{:?}", standard_ruleset_payload()))
        }
        other => panic!("{other:?}"),
    }
}

#[test]
fn nothing_is_sent_without_a_token() {
    assert_eq!(
        run(false, vec![repository(true), actions(true)]),
        vec![
            "refused: refusing GitHub mutation without BONSAI_GITHUB_TOKEN or GITHUB_TOKEN",
            "rest",
            "rest",
        ]
    );
}

#[test]
fn nothing_is_asked_for_a_faulty_policy() {
    let mut faulty = policy();
    faulty.repository = "widget".into();
    let (_, action) = Rollout::begin(&faulty, true);
    assert_eq!(
        shown(&action),
        "refused: github.repository must be owner/repo"
    );
    assert!(Survey::begin(&faulty).is_err());
}

#[test]
fn nothing_is_sent_while_something_is_unknown() {
    let done = run(
        true,
        vec![
            repository(false),
            actions(true),
            listed(&[]),
            listed(&[]),
        ],
    );
    assert_eq!(
        done[3..],
        [
            "refused: refusing GitHub mutation while required controls are unknown: github-push-protection, github-secret-scanning-unknown, github-standard-ruleset",
            "rest",
        ]
    );
}

#[test]
fn a_stronger_ruleset_is_left_alone() {
    let done = run(
        true,
        vec![
            repository(true),
            actions(true),
            listed(&[]),
            listed(&[(7, RULESET_NAME)]),
            stronger(),
            Json::Null,
        ],
    );
    assert_eq!(
        done[4..],
        [
            "GET /repos/example/widget/rulesets/7",
            "refused: refusing to replace a stronger or extended bonsai-standard-v1 ruleset; preserve its controls manually before applying standard-v1",
            "rest",
        ]
    );
}

#[test]
fn a_repository_without_a_default_branch_is_not_surveyed() {
    for reply in vec![object(vec![]), object(vec![("default_branch", text(""))])] {
        match Survey::Repository.step(&policy(), reply) {
            Inquiry::Nameless(message) => assert_eq!(
                message,
                "GitHub did not return a default branch for example/widget"
            ),
            other => panic!("{other:?}"),
        }
    }
    let done = run(true, vec![Json::Null]);
    assert_eq!(
        done[1],
        "refused: GitHub did not return a default branch for example/widget"
    );
}

#[test]
fn a_survey_looks_at_every_ruleset() {
    let policy = policy();
    let (mut survey, mut path) = Survey::begin(&policy).unwrap();
    let mut asked = vec![];
    let replies = vec![
        repository(true),
        actions(true),
        listed(&[(3, "a"), (9, "b")]),
        object(vec![("name", text("a")), ("bypass_actors", Json::List(vec![]))]),
        object(vec![("name", text("b"))]),
    ];
    let mut seen = None;
    for reply in replies {
        asked.push(path.clone());
        match survey.step(&policy, reply) {
            Inquiry::Ask(next, p) => {
                survey = next;
                path = p;
            }
            Inquiry::Seen(o) => {
                seen = Some(o);
                break;
            }
            Inquiry::Nameless(m) => panic!("{m}"),
        }
    }
    assert_eq!(asked.len(), 5);
    assert_eq!(asked[3], "/repos/example/widget/rulesets/3");
    assert_eq!(asked[4], "/repos/example/widget/rulesets/9");
    let o = seen.unwrap();
    assert_eq!(o.default_branch, "main");
    assert_eq!(o.rulesets.len(), 2);
    assert_eq!(o.rulesets[1].name, "b");
    assert_eq!(o.secret_scanning, Some(true));
    assert_eq!(o.push_protection, Some(false));
    assert!(!o.ruleset_visibility_complete);
}
