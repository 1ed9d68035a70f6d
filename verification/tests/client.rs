use serde_json::Value;
use wikiwho::json::{JsonField, JsonValue};
use wikiwho::mwclient::info::{page_id_params, rev_id_params, title_params};
use wikiwho::mwclient::revisions::RevisionFetcher;
use wikiwho::mwclient::{
    accept_body, give_up, refused, truncate, HttpEvent, MwClient, MwClientBuilder, MwError,
    RetryAction, RetryState, SECOND,
};

fn own(v: &Value) -> JsonValue {
    match v {
        Value::Null => JsonValue::Null,
        Value::Bool(b) => JsonValue::Bool(*b),
        Value::Number(n) => {
            if let Some(u) = n.as_u64() {
                JsonValue::Unsigned(u as u128)
            } else if let Some(i) = n.as_i64() {
                JsonValue::Negative(i)
            } else {
                JsonValue::Real(n.to_string())
            }
        }
        Value::String(s) => JsonValue::Text(s.clone()),
        Value::Array(items) => JsonValue::Array(items.iter().map(own).collect()),
        Value::Object(fields) => JsonValue::Object(
            fields
                .iter()
                .map(|(name, value)| JsonField {
                    name: name.clone(),
                    value: own(value),
                })
                .collect(),
        ),
    }
}

fn json(text: &str) -> JsonValue {
    own(&serde_json::from_str(text).unwrap())
}

fn answered(status: u16, retry_after: Option<&str>) -> HttpEvent {
    HttpEvent::Answered {
        status,
        retry_after: retry_after.map(String::from),
    }
}

fn failed(timeout: bool) -> HttpEvent {
    HttpEvent::Failed {
        timeout,
        connect: false,
        request: false,
        message: "boom".into(),
    }
}

#[test]
fn addresses_of_a_wiki() {
    let c = MwClient::new("de");
    assert_eq!(c.api_url(), "https://de.wikipedia.org/w/api.php");
    assert_eq!(c.rest_base_url(), "https://de.wikipedia.org/api/rest_v1");
    assert!(c.user_agent().starts_with("wikiwho_rust-mwclient/"));
    assert_eq!(c.between_batches(), 300_000_000);
    let d = MwClient::builder("de")
        .user_agent("ua")
        .retry_budget(5 * SECOND)
        .retry_max_attempts(0)
        .base_backoff(2 * SECOND)
        .request_timeout(SECOND)
        .build();
    assert_eq!(d.user_agent(), "ua");
    assert_eq!(d.retry_max_attempts, 1);
}

#[test]
fn waits_double_and_never_shrink() {
    let c = MwClient::new("en");
    assert_eq!(c.backoff_for(1), SECOND);
    assert_eq!(c.backoff_for(2), 2 * SECOND);
    assert_eq!(c.backoff_for(5), 16 * SECOND);
    let mut last = 0;
    for attempt in 1..100 {
        let wait = c.backoff_for(attempt);
        assert!(wait >= last);
        last = wait;
    }
}

#[test]
fn answers_decide_what_comes_next() {
    let c = MwClientBuilder::for_lang("en").retry_max_attempts(2).build();
    let first = RetryState::new().begin();
    let second = first.begin();
    assert!(matches!(
        c.after_try(first, answered(200, None), false).1,
        RetryAction::Accept
    ));
    assert!(matches!(
        c.after_try(first, answered(503, None), false).1,
        RetryAction::Again(n) if n == SECOND
    ));
    assert!(matches!(
        c.after_try(second, answered(503, None), false).1,
        RetryAction::GiveUp
    ));
    assert!(matches!(
        c.after_try(first, answered(404, None), false).1,
        RetryAction::Refused
    ));
    assert!(matches!(
        c.after_try(first, failed(true), false).1,
        RetryAction::Again(_)
    ));
    assert!(matches!(
        c.after_try(first, failed(false), false).1,
        RetryAction::Fail(MwError::Http(m)) if m == "boom"
    ));
    assert!(matches!(
        c.after_try(second, failed(true), false).1,
        RetryAction::Fail(MwError::Http(_))
    ));
}

#[test]
fn a_plain_text_that_keeps_failing_is_refused() {
    let c = MwClientBuilder::for_lang("en").retry_max_attempts(2).build();
    let first = RetryState::new().begin();
    let second = first.begin();
    assert!(matches!(
        c.after_try(first, answered(503, None), true).1,
        RetryAction::Again(n) if n == SECOND
    ));
    assert!(matches!(
        c.after_try(second, answered(503, None), true).1,
        RetryAction::Refused
    ));
    assert!(matches!(
        c.after_try(second, answered(200, None), true).1,
        RetryAction::Accept
    ));
}

#[test]
fn rate_limits_use_up_the_budget() {
    let c = MwClientBuilder::for_lang("en").retry_budget(10 * SECOND).build();
    let state = RetryState::new().begin();
    let (state, action) = c.after_try(state, answered(429, Some("7")), false);
    assert!(matches!(action, RetryAction::Again(n) if n == 7 * SECOND));
    assert_eq!(state.slept, 7 * SECOND);
    let (state, action) = c.after_try(state.begin(), answered(429, Some("7")), false);
    let RetryAction::WaitThenFail(wait, error) = action else {
        panic!("expected to fail after a wait");
    };
    assert_eq!(wait, 3 * SECOND);
    assert_eq!(
        error.message(),
        "rate-limit budget exhausted after 10s; last Retry-After was 7s"
    );
    let (_, action) = c.after_try(state.begin(), answered(429, None), false);
    assert!(matches!(
        action,
        RetryAction::Fail(MwError::RateLimitBudgetExhausted {
            slept_seconds: 10,
            last_retry_after_seconds: 4
        })
    ));
}

#[test]
fn errors_say_what_happened() {
    assert_eq!(
        MwError::Http("x".into()).message(),
        "HTTP transport error: x"
    );
    assert_eq!(
        MwError::PageMissing { page_id: 3 }.message(),
        "article missing (page_id=3)"
    );
    assert_eq!(
        MwError::PaginationEndedEarly {
            page_id: 1,
            end_rev_id: 2
        }
        .message(),
        "pagination ended before reaching rev_id=2 for page_id=1"
    );
    assert_eq!(MwError::Json("j".into()).message(), "JSON error: j");
    assert_eq!(
        MwError::shape("s").message(),
        "unexpected response shape: s"
    );
    assert_eq!(
        give_up("503 Service Unavailable", 5, "body").message(),
        "exhausted retries: HTTP 503 Service Unavailable after 5 attempts: body"
    );
    assert_eq!(
        refused("403 Forbidden", "no").message(),
        "unexpected response shape: HTTP 403 Forbidden: no"
    );
    assert_eq!(truncate("abcdef", 3), "abc…");
    assert_eq!(truncate("abc", 3), "abc");
}

#[test]
fn an_error_in_the_answer_is_an_error() {
    let err = accept_body(json(r#"{"error": {"code": "c", "info": "i"}}"#)).unwrap_err();
    assert_eq!(err.message(), "MW API error: c: i");
    let err = accept_body(json(r#"{"error": {}}"#)).unwrap_err();
    assert_eq!(err.message(), "MW API error: unknown: ");
    assert!(accept_body(json(r#"{"query": {}}"#)).is_ok());
}

#[test]
fn queries_name_the_page() {
    let pair = |a: &str, b: &str| (a.to_string(), b.to_string());
    for (params, last) in [
        (title_params("A B"), pair("titles", "A B")),
        (page_id_params(7), pair("pageids", "7")),
        (rev_id_params(8), pair("revids", "8")),
    ] {
        assert_eq!(params[0], pair("action", "query"));
        assert!(params.contains(&pair("prop", "info")));
        assert_eq!(params.last(), Some(&last));
    }
}

fn batch(ids: &[u64], more: Option<&str>) -> JsonValue {
    let revs: Vec<String> = ids
        .iter()
        .map(|id| {
            format!(
                "{{\"revid\": {id}, \"timestamp\": \"t\", \"slots\": {{\"main\": {{\"content\": \"x\"}}}}}}"
            )
        })
        .collect();
    let more = match more {
        Some(c) => format!(", \"continue\": {{\"rvcontinue\": \"{c}\"}}"),
        None => String::new(),
    };
    json(&format!(
        "{{\"query\": {{\"pages\": [{{\"pageid\": 1, \"revisions\": [{}]}}]}}{more}}}",
        revs.join(",")
    ))
}

#[test]
fn a_history_is_fetched_to_its_end() {
    let mut f = MwClient::new("en").fetch_revisions(1, 3);
    assert_eq!((f.page_id(), f.end_rev_id()), (1, 3));
    assert!(!f.waits());
    let b = f.next_batch(&batch(&[1, 2], Some("c1"))).unwrap();
    assert_eq!(b.revisions.len(), 2);
    assert!(!b.saw_end && !f.is_finished() && f.waits());
    assert_eq!(f.rvcontinue(), Some("c1"));
    assert!(f
        .params()
        .contains(&("rvcontinue".to_string(), "c1".to_string())));
    let b = f.next_batch(&batch(&[3], Some("c2"))).unwrap();
    assert!(b.saw_end && f.is_finished());
}

#[test]
fn a_history_without_its_end_is_an_error() {
    let mut f = RevisionFetcher::new(1, 9, None);
    let err = f.next_batch(&batch(&[1, 2], None)).unwrap_err();
    assert!(matches!(
        err,
        MwError::PaginationEndedEarly {
            page_id: 1,
            end_rev_id: 9
        }
    ));
    let mut f = RevisionFetcher::new(1, 9, None);
    let missing = json(r#"{"query": {"pages": [{"pageid": 1, "missing": true}]}}"#);
    assert!(matches!(
        f.next_batch(&missing).unwrap_err(),
        MwError::PageMissing { page_id: 1 }
    ));
    let mut f = RevisionFetcher::new(1, 9, None);
    assert!(matches!(
        f.next_batch(&json("{}")).unwrap_err(),
        MwError::Shape(_)
    ));
}
