//! The standard ruleset: what is put in place, when a ruleset that is there may be replaced by
//! it, and what else a repository is asked to switch on.
use vstd::prelude::*;

use crate::github::{
    check_context, check_contexts, matches_standard, observes, parameters, protects, rule_from,
    rules_of, ComplianceReport, Observation, REQUIRED_CHECK, RULESET_NAME, RulesetObservation,
    Verdict,
};
use crate::json::{json_string, quote};
use crate::text::{cat2, cat3, gather, holds, join, joined, put, text_opt, texts};
use crate::value::{
    all_items, as_count, as_list, as_number, as_text, count_of, entry_from, field, field_below,
    get_below, is_true, items_of, lends, number_of, text_is, text_of, truth_of, Json,
};

verus! {

// ── what may be replaced ───────────────────────────────────────────────────────────────

/// The kinds of rules that the standard ruleset has.
pub open spec fn known_kinds() -> Seq<Seq<char>> {
    seq!["deletion"@, "non_fast_forward"@, "pull_request"@, "required_status_checks"@]
}

/// The parameters of a rule on pull requests that are understood.
pub open spec fn review_keys() -> Seq<Seq<char>> {
    seq![
        "dismiss_stale_reviews_on_push"@,
        "require_code_owner_review"@,
        "require_extra_approval_for_unattributed_changes"@,
        "require_last_push_approval"@,
        "required_approving_review_count"@,
        "required_review_thread_resolution"@,
        "required_reviewers"@,
        "allowed_merge_methods"@,
    ]
}

/// The parameters of a rule on checks that are understood.
pub open spec fn check_keys() -> Seq<Seq<char>> {
    seq![
        "do_not_enforce_on_create"@,
        "strict_required_status_checks_policy"@,
        "required_status_checks"@,
    ]
}

/// The ways to merge.
pub open spec fn merge_methods() -> Seq<Seq<char>> {
    seq!["merge"@, "rebase"@, "squash"@]
}

/// Whether a rule is of a kind that the standard ruleset has.
pub open spec fn known_rule(rule: Json) -> bool {
    match text_of(field(rule, "type"@)) {
        Some(kind) => known_kinds().contains(kind),
        None => false,
    }
}

/// Whether a value is an object with no other names than these.
pub open spec fn only_keys(j: Json, known: Seq<Seq<char>>) -> bool {
    match j {
        Json::Object(v) => names_within(v@, known),
        _ => false,
    }
}

/// Whether entries have no other names than these.
pub open spec fn names_within(v: Seq<(String, Json)>, known: Seq<Seq<char>>) -> bool {
    forall|i: int| 0 <= i < v.len() ==> known.contains((#[trigger] v[i]).0@)
}

/// Whether a ruleset is aimed at the default branch and at nothing else.
pub open spec fn default_branch_only(v: Json) -> bool {
    let c = field_below(field(v, "conditions"@), "ref_name"@);
    let inc = items_of(field_below(c, "include"@));
    let exc = items_of(field_below(c, "exclude"@));
    &&& inc is Some
    &&& inc->0.len() == 1
    &&& text_of(Some(inc->0[0])) == Some("~DEFAULT_BRANCH"@)
    &&& exc is Some
    &&& exc->0.len() == 0
}

/// The text of an item, where it is one.
pub open spec fn item_text(l: Seq<Json>) -> spec_fn(int) -> Seq<Seq<char>> {
    |i: int|
        match text_of(Some(l[i])) {
            Some(s) => seq![s],
            None => seq![],
        }
}

/// The texts among the items of a value.
pub open spec fn item_texts(j: Option<Json>) -> Seq<Seq<char>> {
    gather(all_items(j).len() as int, item_text(all_items(j)))
}

/// Whether two lists hold the same strings, in whatever order.
pub open spec fn same_members(a: Seq<Seq<char>>, b: Seq<Seq<char>>) -> bool {
    (forall|i: int| 0 <= i < a.len() ==> b.contains(#[trigger] a[i])) && (forall|i: int|
        0 <= i < b.len() ==> a.contains(#[trigger] b[i]))
}

/// Whether the parameters of a rule on pull requests ask for no more than the standard does.
pub open spec fn modest_review(p: Json) -> bool {
    let methods = item_texts(field(p, "allowed_merge_methods"@));
    &&& only_keys(p, review_keys())
    &&& all_items(field(p, "required_reviewers"@)).len() == 0
    &&& count_of(field(p, "required_approving_review_count"@)) <= 1
    &&& !is_true(field(p, "require_code_owner_review"@))
    &&& !is_true(field(p, "require_last_push_approval"@))
    &&& methods.len() == 0 || same_members(methods, merge_methods())
}

/// Whether a required check is named by its context alone.
pub open spec fn bare_check(j: Json) -> bool {
    only_keys(j, seq!["context"@]) && text_of(field(j, "context"@)) is Some
}

/// Whether the parameters of a rule on checks ask for no more than the standard does.
pub open spec fn modest_checks(p: Json) -> bool {
    let contexts = check_contexts(Some(p));
    let checks = all_items(field(p, "required_status_checks"@));
    &&& only_keys(p, check_keys())
    &&& contexts.len() == 0 || same_members(contexts, seq![REQUIRED_CHECK@])
    &&& forall|i: int| 0 <= i < checks.len() ==> bare_check(#[trigger] checks[i])
}

/// Whether replacing a ruleset by the standard one takes nothing away: it has no rules of other
/// kinds, is aimed at the default branch alone, and asks for no more.
pub open spec fn replaceable(v: Json) -> bool {
    let review = parameters(v, "pull_request"@);
    let checks = parameters(v, "required_status_checks"@);
    &&& forall|i: int| 0 <= i < rules_of(v).len() ==> known_rule(#[trigger] rules_of(v)[i])
    &&& default_branch_only(v)
    &&& review is Some ==> modest_review(review->0)
    &&& checks is Some ==> modest_checks(checks->0)
}

fn name_kinds() -> (r: Vec<String>)
    ensures
        texts(r@) == known_kinds(),
{
    let mut r: Vec<String> = Vec::new();
    put(&mut r, "deletion".to_owned());
    put(&mut r, "non_fast_forward".to_owned());
    put(&mut r, "pull_request".to_owned());
    put(&mut r, "required_status_checks".to_owned());
    assert(texts(r@) =~= known_kinds());
    r
}

fn name_review_keys() -> (r: Vec<String>)
    ensures
        texts(r@) == review_keys(),
{
    let mut r: Vec<String> = Vec::new();
    put(&mut r, "dismiss_stale_reviews_on_push".to_owned());
    put(&mut r, "require_code_owner_review".to_owned());
    put(&mut r, "require_extra_approval_for_unattributed_changes".to_owned());
    put(&mut r, "require_last_push_approval".to_owned());
    put(&mut r, "required_approving_review_count".to_owned());
    put(&mut r, "required_review_thread_resolution".to_owned());
    put(&mut r, "required_reviewers".to_owned());
    put(&mut r, "allowed_merge_methods".to_owned());
    assert(texts(r@) =~= review_keys());
    r
}

fn name_check_keys() -> (r: Vec<String>)
    ensures
        texts(r@) == check_keys(),
{
    let mut r: Vec<String> = Vec::new();
    put(&mut r, "do_not_enforce_on_create".to_owned());
    put(&mut r, "strict_required_status_checks_policy".to_owned());
    put(&mut r, "required_status_checks".to_owned());
    assert(texts(r@) =~= check_keys());
    r
}

fn name_methods() -> (r: Vec<String>)
    ensures
        texts(r@) == merge_methods(),
{
    let mut r: Vec<String> = Vec::new();
    put(&mut r, "merge".to_owned());
    put(&mut r, "rebase".to_owned());
    put(&mut r, "squash".to_owned());
    assert(texts(r@) =~= merge_methods());
    r
}

fn name_one(s: &str) -> (r: Vec<String>)
    ensures
        texts(r@) == seq![s@],
{
    let mut r: Vec<String> = Vec::new();
    put(&mut r, s.to_owned());
    assert(texts(r@) =~= seq![s@]);
    r
}

fn has_only_keys(j: &Json, known: &Vec<String>) -> (r: bool)
    ensures
        r == only_keys(*j, texts(known@)),
{
    match j {
        Json::Object(v) => are_names_within(v, known),
        _ => false,
    }
}

fn are_names_within(v: &Vec<(String, Json)>, known: &Vec<String>) -> (r: bool)
    ensures
        r == names_within(v@, texts(known@)),
{
    let mut i: usize = 0;
    while i < v.len()
        invariant
            i <= v.len(),
            forall|k: int| 0 <= k < i ==> texts(known@).contains((#[trigger] v@[k]).0@),
        decreases v.len() - i,
    {
        if !holds(known, v[i].0.as_str()) {
            assert(!texts(known@).contains(v@[i as int].0@));
            return false;
        }
        i += 1;
    }
    true
}

fn within(a: &Vec<String>, b: &Vec<String>) -> (r: bool)
    ensures
        r == (forall|i: int|
            0 <= i < texts(a@).len() ==> texts(b@).contains(#[trigger] texts(a@)[i])),
{
    let mut i: usize = 0;
    while i < a.len()
        invariant
            i <= a.len(),
            forall|k: int| 0 <= k < i ==> texts(b@).contains(#[trigger] texts(a@)[k]),
        decreases a.len() - i,
    {
        assert(texts(a@)[i as int] == a@[i as int]@);
        if !holds(b, a[i].as_str()) {
            return false;
        }
        i += 1;
    }
    true
}

fn list_texts(j: Option<&Json>, Ghost(v): Ghost<Option<Json>>) -> (r: Vec<String>)
    requires
        lends(j, v),
    ensures
        texts(r@) == item_texts(v),
{
    let mut r: Vec<String> = Vec::new();
    let ghost all = all_items(v);
    match as_list(j) {
        Some(l) => {
            assert(items_of(v) == Some(l@));
            let mut i: usize = 0;
            while i < l.len()
                invariant
                    i <= l.len(),
                    all == l@,
                    texts(r@) =~= gather(i as int, item_text(all)),
                decreases l.len() - i,
            {
                let item = Some(&l[i]);
                assert(lends(item, Some(l@[i as int])));
                match as_text(item) {
                    Some(s) => {
                        put(&mut r, s.clone());
                    },
                    None => {},
                }
                i += 1;
            }
        },
        None => {
            assert(items_of(v) is None);
            assert(texts(r@) =~= gather(0, item_text(all)));
        },
    }
    r
}

fn is_modest_review(p: &Json) -> (r: bool)
    ensures
        r == modest_review(*p),
{
    let reviewers = match as_list(p.get("required_reviewers")) {
        Some(l) => l.len(),
        None => 0,
    };
    assert(reviewers == all_items(field(*p, "required_reviewers"@)).len());
    let ghost m = field(*p, "allowed_merge_methods"@);
    let methods = list_texts(p.get("allowed_merge_methods"), Ghost(m));
    let all = name_methods();
    assert(texts(methods@).len() == methods@.len());
    has_only_keys(p, &name_review_keys()) && reviewers == 0 && as_count(
        p.get("required_approving_review_count"),
    ) <= 1 && !truth_of(p.get("require_code_owner_review")) && !truth_of(
        p.get("require_last_push_approval"),
    ) && (methods.len() == 0 || (within(&methods, &all) && within(&all, &methods)))
}

fn is_bare_check(j: &Json) -> (r: bool)
    ensures
        r == bare_check(*j),
{
    let named = as_text(j.get("context")).is_some();
    assert(named == (text_of(field(*j, "context"@)) is Some));
    has_only_keys(j, &name_one("context")) && named
}

fn is_modest_checks(p: &Json) -> (r: bool)
    ensures
        r == modest_checks(*p),
{
    if !has_only_keys(p, &name_check_keys()) {
        return false;
    }
    let list = p.get("required_status_checks");
    let ghost want = field(*p, "required_status_checks"@);
    let ghost checks = all_items(want);
    let mut contexts: Vec<String> = Vec::new();
    assert(check_contexts(Some(*p)) == gather(checks.len() as int, check_context(checks)));
    match as_list(list) {
        Some(l) => {
            assert(items_of(want) == Some(l@));
            let mut i: usize = 0;
            while i < l.len()
                invariant
                    i <= l.len(),
                    checks == l@,
                    checks == all_items(field(*p, "required_status_checks"@)),
                    texts(contexts@) =~= gather(i as int, check_context(checks)),
                    forall|k: int| 0 <= k < i ==> bare_check(#[trigger] checks[k]),
                decreases l.len() - i,
            {
                if !is_bare_check(&l[i]) {
                    assert(!bare_check(checks[i as int]));
                    return false;
                }
                let context = l[i].get("context");
                match as_text(context) {
                    Some(s) => {
                        assert(text_of(field(l@[i as int], "context"@)) == Some(s@));
                        put(&mut contexts, s.clone());
                    },
                    None => {
                        assert(text_of(field(l@[i as int], "context"@)) is None);
                    },
                }
                i += 1;
            }
        },
        None => {
            assert(items_of(want) is None);
            assert(texts(contexts@) =~= gather(0, check_context(checks)));
        },
    }
    assert(texts(contexts@).len() == contexts@.len());
    let one = name_one(REQUIRED_CHECK);
    contexts.len() == 0 || (within(&contexts, &one) && within(&one, &contexts))
}

fn has_known_rules(v: &Json) -> (r: bool)
    ensures
        r == (forall|i: int| 0 <= i < rules_of(*v).len() ==> known_rule(#[trigger] rules_of(*v)[i])),
{
    let kinds = name_kinds();
    let rules = v.get("rules");
    match as_list(rules) {
        Some(l) => {
            assert(items_of(field(*v, "rules"@)) == Some(l@));
            let mut i: usize = 0;
            while i < l.len()
                invariant
                    i <= l.len(),
                    rules_of(*v) == l@,
                    texts(kinds@) == known_kinds(),
                    forall|k: int| 0 <= k < i ==> known_rule(#[trigger] rules_of(*v)[k]),
                decreases l.len() - i,
            {
                let kind = l[i].get("type");
                let known = match as_text(kind) {
                    Some(s) => {
                        assert(text_of(field(l@[i as int], "type"@)) == Some(s@));
                        holds(&kinds, s.as_str())
                    },
                    None => {
                        assert(text_of(field(l@[i as int], "type"@)) is None);
                        false
                    },
                };
                if !known {
                    assert(!known_rule(rules_of(*v)[i as int]));
                    return false;
                }
                i += 1;
            }
            true
        },
        None => {
            assert(items_of(field(*v, "rules"@)) is None);
            true
        },
    }
}

fn is_default_branch_only(v: &Json) -> (r: bool)
    ensures
        r == default_branch_only(*v),
{
    let c = get_below(v.get("conditions"), "ref_name");
    let ghost want = field_below(field(*v, "conditions"@), "ref_name"@);
    assert(lends(c, want));
    let inc = get_below(c, "include");
    let exc = get_below(c, "exclude");
    assert(lends(inc, field_below(want, "include"@)));
    assert(lends(exc, field_below(want, "exclude"@)));
    let included = match as_list(inc) {
        Some(l) => {
            assert(items_of(field_below(want, "include"@)) == Some(l@));
            if l.len() == 1 {
                let item = Some(&l[0]);
                assert(lends(item, Some(l@[0])));
                text_is(item, "~DEFAULT_BRANCH")
            } else {
                false
            }
        },
        None => {
            assert(items_of(field_below(want, "include"@)) is None);
            false
        },
    };
    let excluded = match as_list(exc) {
        Some(l) => {
            assert(items_of(field_below(want, "exclude"@)) == Some(l@));
            l.len() == 0
        },
        None => {
            assert(items_of(field_below(want, "exclude"@)) is None);
            false
        },
    };
    included && excluded
}

/// The first rule of a kind, and its parameters.
fn find_parameters<'a>(v: &'a Json, kind: &str) -> (r: Option<&'a Json>)
    ensures
        lends(r, parameters(*v, kind@)),
{
    let rules = v.get("rules");
    match as_list(rules) {
        Some(rs) => {
            assert(items_of(field(*v, "rules"@)) == Some(rs@));
            let mut i: usize = 0;
            while i < rs.len()
                invariant
                    i <= rs.len(),
                    rules_of(*v) == rs@,
                    rule_from(rules_of(*v), kind@, 0) == rule_from(rs@, kind@, i as int),
                decreases rs.len() - i,
            {
                let rule = &rs[i];
                if text_is(rule.get("type"), kind) {
                    return rule.get("parameters");
                }
                i += 1;
            }
            None
        },
        None => {
            assert(items_of(field(*v, "rules"@)) is None);
            None
        },
    }
}

/// Whether replacing a ruleset by the standard one takes nothing away. Other kinds of rules are
/// for an administrator to decide about.
pub fn safe_to_replace_ruleset(v: &Json) -> (r: bool)
    ensures
        r == replaceable(*v),
{
    if !has_known_rules(v) {
        return false;
    }
    if !is_default_branch_only(v) {
        return false;
    }
    let review = find_parameters(v, "pull_request");
    let modest = match review {
        Some(p) => is_modest_review(p),
        None => true,
    };
    if !modest {
        return false;
    }
    let checks = find_parameters(v, "required_status_checks");
    match checks {
        Some(p) => is_modest_checks(p),
        None => true,
    }
}

// ── what is put in place ───────────────────────────────────────────────────────────────

/// Whether a value is an object with these names, in this order.
pub open spec fn has_keys(j: Json, keys: Seq<Seq<char>>) -> bool {
    match j {
        Json::Object(v) => v@.len() == keys.len() && forall|i: int|
            0 <= i < keys.len() ==> (#[trigger] v@[i]).0@ == keys[i],
        _ => false,
    }
}

/// The value of the entry of an object at a position.
pub open spec fn nth(j: Json, i: int) -> Json {
    match j {
        Json::Object(v) => v@[i].1,
        _ => Json::Null,
    }
}

/// Whether a value is this text.
pub open spec fn is_text(j: Json, s: Seq<char>) -> bool {
    text_of(Some(j)) == Some(s)
}

/// Whether a value is a list of `n` items.
pub open spec fn is_list(j: Json, n: int) -> bool {
    items_of(Some(j)) is Some && all_items(Some(j)).len() == n
}

/// The item of a list at a position.
pub open spec fn item(j: Json, i: int) -> Json {
    all_items(Some(j))[i]
}

/// Whether a value is the condition of being aimed at the default branch alone.
pub open spec fn standard_conditions(j: Json) -> bool {
    &&& has_keys(j, seq!["ref_name"@])
    &&& has_keys(nth(j, 0), seq!["include"@, "exclude"@])
    &&& is_list(nth(nth(j, 0), 0), 1)
    &&& is_text(item(nth(nth(j, 0), 0), 0), "~DEFAULT_BRANCH"@)
    &&& is_list(nth(nth(j, 0), 1), 0)
}

/// Whether a value is the standard rule on pull requests: one approval, which goes stale when
/// something is pushed, resolved threads, and an extra approval for unattributed changes.
pub open spec fn standard_review(j: Json) -> bool {
    let p = nth(j, 1);
    &&& has_keys(j, seq!["type"@, "parameters"@])
    &&& is_text(nth(j, 0), "pull_request"@)
    &&& has_keys(p, review_keys())
    &&& nth(p, 0) == Json::Bool(true)
    &&& nth(p, 1) == Json::Bool(false)
    &&& nth(p, 2) == Json::Bool(true)
    &&& nth(p, 3) == Json::Bool(false)
    &&& nth(p, 4) == Json::Unsigned(1)
    &&& nth(p, 5) == Json::Bool(true)
    &&& is_list(nth(p, 6), 0)
    &&& is_list(nth(p, 7), 3)
    &&& is_text(item(nth(p, 7), 0), "squash"@)
    &&& is_text(item(nth(p, 7), 1), "merge"@)
    &&& is_text(item(nth(p, 7), 2), "rebase"@)
}

/// Whether a value is the standard rule on checks: the required one, up to date with the branch.
pub open spec fn standard_checks(j: Json) -> bool {
    let p = nth(j, 1);
    &&& has_keys(j, seq!["type"@, "parameters"@])
    &&& is_text(nth(j, 0), "required_status_checks"@)
    &&& has_keys(p, check_keys())
    &&& nth(p, 0) == Json::Bool(false)
    &&& nth(p, 1) == Json::Bool(true)
    &&& is_list(nth(p, 2), 1)
    &&& has_keys(item(nth(p, 2), 0), seq!["context"@])
    &&& is_text(nth(item(nth(p, 2), 0), 0), REQUIRED_CHECK@)
}

/// Whether a value is a rule without parameters of a kind.
pub open spec fn plain_rule(j: Json, kind: Seq<char>) -> bool {
    has_keys(j, seq!["type"@]) && is_text(nth(j, 0), kind)
}

/// Whether a value is the standard ruleset.
pub open spec fn standard_ruleset(j: Json) -> bool {
    &&& has_keys(
        j,
        seq![
            "name"@,
            "target"@,
            "enforcement"@,
            "bypass_actors"@,
            "conditions"@,
            "rules"@,
        ],
    )
    &&& is_text(nth(j, 0), RULESET_NAME@)
    &&& is_text(nth(j, 1), "branch"@)
    &&& is_text(nth(j, 2), "active"@)
    &&& is_list(nth(j, 3), 0)
    &&& standard_conditions(nth(j, 4))
    &&& is_list(nth(j, 5), 4)
    &&& plain_rule(item(nth(j, 5), 0), "deletion"@)
    &&& plain_rule(item(nth(j, 5), 1), "non_fast_forward"@)
    &&& standard_review(item(nth(j, 5), 2))
    &&& standard_checks(item(nth(j, 5), 3))
}

fn text_value(s: &str) -> (r: Json)
    ensures
        is_text(r, s@),
{
    Json::Text(s.to_owned())
}

fn object1(a: &str, x: Json) -> (r: Json)
    ensures
        has_keys(r, seq![a@]),
        nth(r, 0) == x,
{
    let mut v: Vec<(String, Json)> = Vec::new();
    v.push((a.to_owned(), x));
    Json::Object(v)
}

fn object2(a: &str, x: Json, b: &str, y: Json) -> (r: Json)
    ensures
        has_keys(r, seq![a@, b@]),
        nth(r, 0) == x,
        nth(r, 1) == y,
{
    let mut v: Vec<(String, Json)> = Vec::new();
    v.push((a.to_owned(), x));
    v.push((b.to_owned(), y));
    Json::Object(v)
}

fn list1(x: Json) -> (r: Json)
    ensures
        is_list(r, 1),
        item(r, 0) == x,
{
    let mut v: Vec<Json> = Vec::new();
    v.push(x);
    Json::List(v)
}

fn no_items() -> (r: Json)
    ensures
        is_list(r, 0),
{
    Json::List(Vec::new())
}

fn make_conditions() -> (r: Json)
    ensures
        standard_conditions(r),
{
    object1(
        "ref_name",
        object2("include", list1(text_value("~DEFAULT_BRANCH")), "exclude", no_items()),
    )
}

fn make_review() -> (r: Json)
    ensures
        standard_review(r),
{
    let mut methods: Vec<Json> = Vec::new();
    methods.push(text_value("squash"));
    methods.push(text_value("merge"));
    methods.push(text_value("rebase"));
    let mut v: Vec<(String, Json)> = Vec::new();
    v.push(("dismiss_stale_reviews_on_push".to_owned(), Json::Bool(true)));
    v.push(("require_code_owner_review".to_owned(), Json::Bool(false)));
    v.push(("require_extra_approval_for_unattributed_changes".to_owned(), Json::Bool(true)));
    v.push(("require_last_push_approval".to_owned(), Json::Bool(false)));
    v.push(("required_approving_review_count".to_owned(), Json::Unsigned(1)));
    v.push(("required_review_thread_resolution".to_owned(), Json::Bool(true)));
    v.push(("required_reviewers".to_owned(), no_items()));
    v.push(("allowed_merge_methods".to_owned(), Json::List(methods)));
    object2("type", text_value("pull_request"), "parameters", Json::Object(v))
}

fn make_checks() -> (r: Json)
    ensures
        standard_checks(r),
{
    let mut v: Vec<(String, Json)> = Vec::new();
    v.push(("do_not_enforce_on_create".to_owned(), Json::Bool(false)));
    v.push(("strict_required_status_checks_policy".to_owned(), Json::Bool(true)));
    v.push(
        (
            "required_status_checks".to_owned(),
            list1(object1("context", text_value(REQUIRED_CHECK))),
        ),
    );
    object2("type", text_value("required_status_checks"), "parameters", Json::Object(v))
}

/// The standard ruleset.
pub fn standard_ruleset_payload() -> (r: Json)
    ensures
        standard_ruleset(r),
{
    let mut rules: Vec<Json> = Vec::new();
    rules.push(object1("type", text_value("deletion")));
    rules.push(object1("type", text_value("non_fast_forward")));
    rules.push(make_review());
    rules.push(make_checks());
    let mut v: Vec<(String, Json)> = Vec::new();
    v.push(("name".to_owned(), text_value(RULESET_NAME)));
    v.push(("target".to_owned(), text_value("branch")));
    v.push(("enforcement".to_owned(), text_value("active")));
    v.push(("bypass_actors".to_owned(), no_items()));
    v.push(("conditions".to_owned(), make_conditions()));
    v.push(("rules".to_owned(), Json::List(rules)));
    Json::Object(v)
}

// ── deciding what to change ────────────────────────────────────────────────────────────

/// Why nothing may be changed without a token.
pub fn token_refusal(has_token: bool) -> (r: Option<String>)
    ensures
        text_opt(r) == (if has_token {
            None
        } else {
            Some("refusing GitHub mutation without BONSAI_GITHUB_TOKEN or GITHUB_TOKEN"@)
        }),
{
    if has_token {
        None
    } else {
        Some("refusing GitHub mutation without BONSAI_GITHUB_TOKEN or GITHUB_TOKEN".to_owned())
    }
}

/// Why nothing may be changed while something is unknown.
pub fn preflight_refusal(report: &ComplianceReport) -> (r: Option<String>)
    ensures
        text_opt(r) == (if report.verdict == Verdict::Unknown {
            Some(
                "refusing GitHub mutation while required controls are unknown: "@ + joined(
                    texts(report.rules@),
                    ", "@,
                ),
            )
        } else {
            None
        }),
{
    if report.verdict == Verdict::Unknown {
        Some(
            cat2(
                "refusing GitHub mutation while required controls are unknown: ",
                join(&report.rules, ", ").as_str(),
            ),
        )
    } else {
        None
    }
}

/// Why the ruleset that is there may not be replaced.
pub fn replace_refusal(current: &Json) -> (r: Option<String>)
    ensures
        text_opt(r) == (if replaceable(*current) {
            None
        } else {
            Some(
                "refusing to replace a stronger or extended "@ + RULESET_NAME@
                    + " ruleset; preserve its controls manually before applying standard-v1"@,
            )
        }),
{
    if safe_to_replace_ruleset(current) {
        None
    } else {
        Some(
            cat3(
                "refusing to replace a stronger or extended ",
                RULESET_NAME,
                " ruleset; preserve its controls manually before applying standard-v1",
            ),
        )
    }
}

/// The first ruleset from position `i` on with the standard name.
pub open spec fn named_ruleset(l: Seq<Json>, i: int) -> Option<Json>
    decreases l.len() - i,
{
    if i >= l.len() {
        None
    } else if text_of(field(l[i], "name"@)) == Some(RULESET_NAME@) {
        Some(l[i])
    } else {
        named_ruleset(l, i + 1)
    }
}

/// The id of the first ruleset with the standard name in a list of them, where it shows one.
pub open spec fn standing_ruleset(list: Json) -> Option<i64> {
    number_of(field_below(named_ruleset(all_items(Some(list)), 0), "id"@))
}

/// The id of the ruleset with the standard name that is there.
pub fn existing_ruleset(list: &Json) -> (r: Option<i64>)
    ensures
        r == standing_ruleset(*list),
{
    let whole = Some(list);
    assert(lends(whole, Some(*list)));
    match as_list(whole) {
        Some(l) => {
            assert(items_of(Some(*list)) == Some(l@));
            let mut i: usize = 0;
            while i < l.len()
                invariant
                    i <= l.len(),
                    all_items(Some(*list)) == l@,
                    named_ruleset(all_items(Some(*list)), 0) == named_ruleset(l@, i as int),
                decreases l.len() - i,
            {
                if text_is(l[i].get("name"), RULESET_NAME) {
                    return as_number(l[i].get("id"));
                }
                i += 1;
            }
            None
        },
        None => {
            assert(items_of(Some(*list)) is None);
            None
        },
    }
}

/// Whether the actions are switched off or not pinned.
pub open spec fn lax_actions(o: Observation) -> bool {
    !o.actions_enabled || !o.sha_pinning_required
}

/// Whether the settings of the actions have to be changed.
pub fn actions_need_update(o: &Observation) -> (r: bool)
    ensures
        r == lax_actions(*o),
{
    !o.actions_enabled || !o.sha_pinning_required
}

/// The settings of the actions switched on and pinned, with the actions that were allowed
/// before, or all where that is not shown.
pub open spec fn strict_actions(current: Json) -> Seq<char> {
    "{\"enabled\":true,\"allowed_actions\":"@ + json_string(
        match text_of(field(current, "allowed_actions"@)) {
            Some(s) => s,
            None => "all"@,
        },
    ) + ",\"sha_pinning_required\":true}"@
}

/// The settings of the actions that are asked for.
pub fn actions_body(current: &Json) -> (r: String)
    ensures
        r@ == strict_actions(*current),
{
    let allowed = current.get("allowed_actions");
    let ghost want = field(*current, "allowed_actions"@);
    let text = match as_text(allowed) {
        Some(s) => {
            assert(text_of(want) == Some(s@));
            s.clone()
        },
        None => {
            assert(text_of(want) is None);
            "all".to_owned()
        },
    };
    cat3(
        "{\"enabled\":true,\"allowed_actions\":",
        quote(text.as_str()).as_str(),
        ",\"sha_pinning_required\":true}",
    )
}

/// The security settings that are asked for.
pub const SECURITY_BODY: &'static str = "{\"security_and_analysis\":{\"dependabot_security_updates\":{\"status\":\"enabled\"},\"secret_scanning\":{\"status\":\"enabled\"},\"secret_scanning_push_protection\":{\"status\":\"enabled\"}}}";

// ── what the standard ruleset promises ─────────────────────────────────────────────────

proof fn entry_at(v: Seq<(String, Json)>, k: Seq<char>, i: int, j: int)
    requires
        0 <= i <= j < v.len(),
        v[j].0@ == k,
        forall|m: int| i <= m < j ==> (#[trigger] v[m]).0@ != k,
    ensures
        entry_from(v, k, i) == Some(v[j].1),
    decreases j - i,
{
    if i < j {
        assert(v[i].0@ != k);
        entry_at(v, k, i + 1, j);
    }
}

/// A value under the name at a position, where no earlier name is the same.
proof fn field_at(j: Json, keys: Seq<Seq<char>>, i: int)
    requires
        has_keys(j, keys),
        0 <= i < keys.len(),
        forall|m: int| 0 <= m < i ==> (#[trigger] keys[m]).len() != keys[i].len(),
    ensures
        field(j, keys[i]) == Some(nth(j, i)),
{
    match j {
        Json::Object(v) => {
            assert forall|m: int| 0 <= m < i implies (#[trigger] v@[m]).0@ != keys[i] by {
                assert(keys[m].len() != keys[i].len());
            }
            assert(v@[i].0@ == keys[i]);
            entry_at(v@, keys[i], 0, i);
        },
        _ => {},
    }
}

proof fn keys_are_only(j: Json, keys: Seq<Seq<char>>)
    requires
        has_keys(j, keys),
    ensures
        only_keys(j, keys),
{
    match j {
        Json::Object(v) => {
            assert(names_within(v@, keys)) by {
            assert forall|i: int| 0 <= i < v@.len() implies keys.contains((#[trigger] v@[i]).0@) by {
                assert(v@[i].0@ == keys[i]);
            }
            }
        },
        _ => {},
    }
}

proof fn review_fields(p: Json)
    requires
        has_keys(p, review_keys()),
    ensures
        field(p, "dismiss_stale_reviews_on_push"@) == Some(nth(p, 0)),
        field(p, "require_code_owner_review"@) == Some(nth(p, 1)),
        field(p, "require_extra_approval_for_unattributed_changes"@) == Some(nth(p, 2)),
        field(p, "require_last_push_approval"@) == Some(nth(p, 3)),
        field(p, "required_approving_review_count"@) == Some(nth(p, 4)),
        field(p, "required_review_thread_resolution"@) == Some(nth(p, 5)),
        field(p, "required_reviewers"@) == Some(nth(p, 6)),
        field(p, "allowed_merge_methods"@) == Some(nth(p, 7)),
{
    reveal_strlit("dismiss_stale_reviews_on_push");
    reveal_strlit("require_code_owner_review");
    reveal_strlit("require_extra_approval_for_unattributed_changes");
    reveal_strlit("require_last_push_approval");
    reveal_strlit("required_approving_review_count");
    reveal_strlit("required_review_thread_resolution");
    reveal_strlit("required_reviewers");
    reveal_strlit("allowed_merge_methods");
    let k = review_keys();
    field_at(p, k, 0);
    field_at(p, k, 1);
    field_at(p, k, 2);
    field_at(p, k, 3);
    field_at(p, k, 4);
    field_at(p, k, 5);
    field_at(p, k, 6);
    field_at(p, k, 7);
}

proof fn check_fields(p: Json)
    requires
        has_keys(p, check_keys()),
    ensures
        field(p, "do_not_enforce_on_create"@) == Some(nth(p, 0)),
        field(p, "strict_required_status_checks_policy"@) == Some(nth(p, 1)),
        field(p, "required_status_checks"@) == Some(nth(p, 2)),
{
    reveal_strlit("do_not_enforce_on_create");
    reveal_strlit("strict_required_status_checks_policy");
    reveal_strlit("required_status_checks");
    let k = check_keys();
    field_at(p, k, 0);
    field_at(p, k, 1);
    field_at(p, k, 2);
}

proof fn rule_fields(j: Json)
    requires
        has_keys(j, seq!["type"@, "parameters"@]),
    ensures
        field(j, "type"@) == Some(nth(j, 0)),
        field(j, "parameters"@) == Some(nth(j, 1)),
{
    reveal_strlit("type");
    reveal_strlit("parameters");
    let k = seq!["type"@, "parameters"@];
    field_at(j, k, 0);
    field_at(j, k, 1);
}

proof fn plain_fields(j: Json)
    requires
        has_keys(j, seq!["type"@]),
    ensures
        field(j, "type"@) == Some(nth(j, 0)),
{
    field_at(j, seq!["type"@], 0);
}

proof fn ruleset_fields(j: Json)
    requires
        standard_ruleset(j),
    ensures
        field(j, "name"@) == Some(nth(j, 0)),
        field(j, "enforcement"@) == Some(nth(j, 2)),
        field(j, "bypass_actors"@) == Some(nth(j, 3)),
        field(j, "conditions"@) == Some(nth(j, 4)),
        field(j, "rules"@) == Some(nth(j, 5)),
{
    reveal_strlit("name");
    reveal_strlit("target");
    reveal_strlit("enforcement");
    reveal_strlit("bypass_actors");
    reveal_strlit("conditions");
    reveal_strlit("rules");
    let k = seq![
        "name"@,
        "target"@,
        "enforcement"@,
        "bypass_actors"@,
        "conditions"@,
        "rules"@,
    ];
    field_at(j, k, 0);
    field_at(j, k, 2);
    field_at(j, k, 3);
    field_at(j, k, 4);
    field_at(j, k, 5);
}

proof fn conditions_hold(j: Json)
    requires
        standard_ruleset(j),
    ensures
        default_branch_only(j),
        forall|branch: Seq<char>| #[trigger] crate::github::aims_at(j, branch),
{
    ruleset_fields(j);
    reveal_strlit("include");
    reveal_strlit("exclude");
    let c = nth(j, 4);
    field_at(c, seq!["ref_name"@], 0);
    let r = nth(c, 0);
    let k = seq!["include"@, "exclude"@];
    field_at(r, k, 0);
    match r {
        Json::Object(v) => {
            assert("include"@[0] != "exclude"@[0]);
            assert(v@[0].0@ == k[0] && v@[1].0@ == k[1]);
            entry_at(v@, "exclude"@, 0, 1);
        },
        _ => {},
    }
    assert forall|branch: Seq<char>| #[trigger] crate::github::aims_at(j, branch) by {
        let refs = all_items(field(r, "include"@));
        assert(text_of(Some(refs[0])) == Some("~DEFAULT_BRANCH"@));
    }
}

proof fn rules_found(j: Json)
    requires
        standard_ruleset(j),
    ensures
        rules_of(j) == all_items(Some(nth(j, 5))),
        rule_from(rules_of(j), "deletion"@, 0) == Some(item(nth(j, 5), 0)),
        rule_from(rules_of(j), "non_fast_forward"@, 0) == Some(item(nth(j, 5), 1)),
        rule_from(rules_of(j), "pull_request"@, 0) == Some(item(nth(j, 5), 2)),
        rule_from(rules_of(j), "required_status_checks"@, 0) == Some(item(nth(j, 5), 3)),
        parameters(j, "pull_request"@) == Some(nth(item(nth(j, 5), 2), 1)),
        parameters(j, "required_status_checks"@) == Some(nth(item(nth(j, 5), 3), 1)),
        forall|i: int| 0 <= i < rules_of(j).len() ==> known_rule(#[trigger] rules_of(j)[i]),
{
    ruleset_fields(j);
    let rs = rules_of(j);
    reveal_strlit("deletion");
    reveal_strlit("non_fast_forward");
    reveal_strlit("pull_request");
    reveal_strlit("required_status_checks");
    plain_fields(rs[0]);
    plain_fields(rs[1]);
    rule_fields(rs[2]);
    rule_fields(rs[3]);
    let k = known_kinds();
    assert(k[0] == "deletion"@ && k[1] == "non_fast_forward"@ && k[2] == "pull_request"@ && k[3]
        == "required_status_checks"@);
    assert(text_of(field(rs[0], "type"@)) == Some(k[0]));
    assert(text_of(field(rs[1], "type"@)) == Some(k[1]));
    assert(text_of(field(rs[2], "type"@)) == Some(k[2]));
    assert(text_of(field(rs[3], "type"@)) == Some(k[3]));
    rule_at(rs, k, 0, 0);
    rule_at(rs, k, 0, 1);
    rule_at(rs, k, 0, 2);
    rule_at(rs, k, 0, 3);
    assert forall|i: int| 0 <= i < rs.len() implies known_rule(#[trigger] rs[i]) by {
        assert(text_of(field(rs[i], "type"@)) == Some(k[i]));
    }
}

proof fn rule_at(rs: Seq<Json>, kinds: Seq<Seq<char>>, i: int, j: int)
    requires
        0 <= i <= j < rs.len() == kinds.len(),
        forall|m: int|
            0 <= m < rs.len() ==> text_of(field(#[trigger] rs[m], "type"@)) == Some(kinds[m]),
        forall|m: int, n: int|
            0 <= m < n < kinds.len() ==> (#[trigger] kinds[m]).len() != (#[trigger] kinds[n]).len(),
    ensures
        rule_from(rs, kinds[j], i) == Some(rs[j]),
    decreases j - i,
{
    assert(text_of(field(rs[i], "type"@)) == Some(kinds[i]));
    if i < j {
        assert(kinds[i].len() != kinds[j].len());
        rule_at(rs, kinds, i + 1, j);
    }
}

proof fn review_is_modest(p: Json)
    requires
        has_keys(p, review_keys()),
        nth(p, 1) == Json::Bool(false),
        nth(p, 3) == Json::Bool(false),
        nth(p, 4) == Json::Unsigned(1),
        is_list(nth(p, 6), 0),
        is_list(nth(p, 7), 3),
        is_text(item(nth(p, 7), 0), "squash"@),
        is_text(item(nth(p, 7), 1), "merge"@),
        is_text(item(nth(p, 7), 2), "rebase"@),
    ensures
        modest_review(p),
{
    review_fields(p);
    keys_are_only(p, review_keys());
    let l = all_items(Some(nth(p, 7)));
    let m = item_texts(Some(nth(p, 7)));
    reveal_with_fuel(gather, 4);
    assert(m =~= seq!["squash"@, "merge"@, "rebase"@]);
    let all = merge_methods();
    assert(all[0] == m[1] && all[1] == m[2] && all[2] == m[0]);
    assert(same_members(m, all)) by {
        assert forall|i: int| 0 <= i < m.len() implies all.contains(#[trigger] m[i]) by {
            if i == 0 {
                assert(all[2] == m[0]);
            } else if i == 1 {
                assert(all[0] == m[1]);
            } else {
                assert(all[1] == m[2]);
            }
        }
        assert forall|i: int| 0 <= i < all.len() implies m.contains(#[trigger] all[i]) by {
            if i == 0 {
                assert(m[1] == all[0]);
            } else if i == 1 {
                assert(m[2] == all[1]);
            } else {
                assert(m[0] == all[2]);
            }
        }
    }
}

proof fn checks_are_modest(p: Json)
    requires
        has_keys(p, check_keys()),
        is_list(nth(p, 2), 1),
        has_keys(item(nth(p, 2), 0), seq!["context"@]),
        is_text(nth(item(nth(p, 2), 0), 0), REQUIRED_CHECK@),
    ensures
        modest_checks(p),
        check_contexts(Some(p)) == seq![REQUIRED_CHECK@],
{
    check_fields(p);
    keys_are_only(p, check_keys());
    let c = item(nth(p, 2), 0);
    keys_are_only(c, seq!["context"@]);
    field_at(c, seq!["context"@], 0);
    let checks = all_items(Some(nth(p, 2)));
    reveal_with_fuel(gather, 2);
    let one = seq![REQUIRED_CHECK@];
    assert(check_contexts(Some(p)) =~= one);
    assert(one[0] == REQUIRED_CHECK@);
    assert(same_members(one, one));
    assert forall|i: int| 0 <= i < checks.len() implies bare_check(#[trigger] checks[i]) by {
        assert(checks[i] == c);
    }
}

/// The standard ruleset may replace itself.
pub proof fn standard_is_replaceable(j: Json)
    requires
        standard_ruleset(j),
    ensures
        replaceable(j),
{
    conditions_hold(j);
    rules_found(j);
    review_is_modest(nth(item(nth(j, 5), 2), 1));
    checks_are_modest(nth(item(nth(j, 5), 3), 1));
}

/// Once the standard ruleset is in place, it is observed as the standard one and as protecting,
/// whatever the default branch is called.
pub proof fn standard_protects(j: Json, o: RulesetObservation, branch: Seq<char>)
    requires
        standard_ruleset(j),
        observes(o, j, branch),
    ensures
        matches_standard(o),
        protects(o),
{
    ruleset_fields(j);
    conditions_hold(j);
    rules_found(j);
    assert(crate::github::aims_at(j, branch));
    let p = nth(item(nth(j, 5), 2), 1);
    let c = nth(item(nth(j, 5), 3), 1);
    review_fields(p);
    check_fields(c);
    checks_are_modest(c);
    assert(texts(o.required_checks@) == seq![REQUIRED_CHECK@]);
    assert(texts(o.required_checks@)[0] == REQUIRED_CHECK@);
}

} // verus!
