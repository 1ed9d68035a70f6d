use serde_json::Value;
use std::collections::HashMap;
use wikiwho::cache_miss::build_article_from_revisions;
use wikiwho::handlers::rev_content::{
    next_content, request_by_title_segment, serve_article, start_content, ContentAction,
    ContentEvent, ContentRequest, ContentStage,
};
use wikiwho::handlers::whocolor::{
    color_target, next_whocolor, prepare_whocolor, start_whocolor, vandalism_response,
    ColorAction, ColorEvent, ColorStage,
};
use wikiwho::handlers::Reply;
use wikiwho::json::JsonValue;
use wikiwho::mwclient::info::PageInfo;
use wikiwho::mwclient::revisions::Revision;
use wikiwho::mwclient::MwError;
use wikiwho::response::ResponseParameters;
use wikiwho::state::AppState;
use wikiwho::index::TitleIndex;
use wikiwho::structures::Article;
use wikiwho::whocolor::{compute_conflict_score, parse_mw_timestamp};

fn number(text: &str) -> Value {
    serde_json::from_str(text).unwrap()
}

fn serde(v: &JsonValue) -> Value {
    match v {
        JsonValue::Null => Value::Null,
        JsonValue::Bool(b) => Value::Bool(*b),
        JsonValue::Unsigned(n) => number(&n.to_string()),
        JsonValue::Negative(n) => number(&n.to_string()),
        JsonValue::Fraction(num, den) => Value::from(*num as f64 / *den as f64),
        JsonValue::Real(digits) => number(digits),
        JsonValue::Text(s) => Value::String(s.clone()),
        JsonValue::Array(items) => Value::Array(items.iter().map(serde).collect()),
        JsonValue::Object(fields) => Value::Object(
            fields
                .iter()
                .map(|f| (f.name.clone(), serde(&f.value)))
                .collect(),
        ),
    }
}

fn rev(rev_id: u64, user: u64, ts: &str, text: &str) -> Revision {
    Revision {
        rev_id,
        parent_id: 0,
        timestamp: ts.into(),
        sha1: None,
        comment: None,
        minor: false,
        user_id: Some(user),
        user_name: Some(format!("u{user}")),
        text: text.into(),
        text_hidden: false,
    }
}

fn article() -> Article {
    build_article_from_revisions(
        "Demo",
        7,
        &[
            rev(10101, 1, "2024-01-01T00:00:00Z", "Hello there friend."),
            rev(10102, 2, "2024-01-02T00:00:00Z", "Hello dear friend."),
        ],
    )
}

fn info() -> PageInfo {
    PageInfo {
        title: "Demo page".into(),
        page_id: 7,
        last_revid: 10102,
    }
}

fn is_408(reply: &Reply) -> bool {
    reply.status == 408
        && serde(&reply.body)["Info"]
            .as_str()
            .unwrap()
            .starts_with("Process took more than 240 seconds.")
}

#[test]
fn missing_article_returns_still_processing() {
    let q = ContentRequest::ByPageId(9999);
    let (stage, action) = start_content(&q);
    assert!(matches!(action, ContentAction::ReadPage(9999)));
    let (stage, action) = next_content(&q, stage, ContentEvent::Served(None));
    assert!(matches!(action, ContentAction::AskPageId(9999)));
    let (stage, action) = next_content(&q, stage, ContentEvent::Resolved(None));
    assert!(matches!(stage, ContentStage::Done));
    assert!(matches!(&action, ContentAction::Respond(r) if is_408(r)));
}

#[test]
fn missing_title_returns_still_processing() {
    let q = ContentRequest::ByTitle("Nope".into());
    let (stage, action) = start_content(&q);
    assert!(matches!(&action, ContentAction::FindTitle(t) if t == "Nope"));
    let (stage, action) = next_content(&q, stage, ContentEvent::Found(None));
    assert!(matches!(&action, ContentAction::AskTitle(t) if t == "Nope"));
    let (_, action) = next_content(&q, stage, ContentEvent::Resolved(None));
    assert!(matches!(&action, ContentAction::Respond(r) if is_408(r)));
}

#[test]
fn rev_content_by_rev_id_unknown_returns_still_processing() {
    let q = ContentRequest::ByRevId(99999);
    let (stage, action) = start_content(&q);
    assert!(matches!(action, ContentAction::FindRevId(99999)));
    let (stage, action) = next_content(&q, stage, ContentEvent::Found(None));
    assert!(matches!(action, ContentAction::AskRevId(99999)));
    let (_, action) = next_content(&q, stage, ContentEvent::Resolved(None));
    assert!(matches!(&action, ContentAction::Respond(r) if is_408(r)));
}

#[test]
fn rev_content_by_page_id_round_trip() {
    let q = ContentRequest::ByPageId(7);
    let (stage, _) = start_content(&q);
    let served = serve_article(&article(), None, ResponseParameters::all());
    let (_, action) = next_content(&q, stage, ContentEvent::Served(served));
    let ContentAction::Respond(reply) = action else {
        panic!("expected an answer");
    };
    assert_eq!(reply.status, 200);
    let body = serde(&reply.body);
    assert_eq!(body["success"], true);
    assert_eq!(body["revisions"][0]["10102"]["editor"], "2");
    let tokens = body["revisions"][0]["10102"]["tokens"].as_array().unwrap();
    let strs: Vec<&str> = tokens.iter().map(|t| t["str"].as_str().unwrap()).collect();
    assert_eq!(strs, vec!["hello", "dear", "friend", "."]);
    let origins: Vec<u64> = tokens.iter().map(|t| t["o_rev_id"].as_u64().unwrap()).collect();
    assert_eq!(origins, vec![10101, 10102, 10101, 10101]);
}

#[test]
fn an_unknown_revision_of_a_stored_page_is_an_error() {
    let reply = serve_article(&article(), Some(5), ResponseParameters::none()).unwrap();
    assert_eq!(reply.status, 400);
    assert_eq!(
        serde(&reply.body)["Error"],
        "Revision ID (5) does not exist or is spam or deleted!"
    );
    assert!(serve_article(&Article::new("E"), None, ResponseParameters::none()).is_none());
}

#[test]
fn a_page_that_is_missing_is_fetched() {
    let q = ContentRequest::ByTitleRev("Demo_page".into(), 10101);
    let (stage, _) = start_content(&q);
    let (stage, _) = next_content(&q, stage, ContentEvent::Found(None));
    let (stage, action) = next_content(&q, stage, ContentEvent::Resolved(Some(info())));
    assert!(matches!(action, ContentAction::ReadPage(7)));
    let (_, action) = next_content(&q, stage, ContentEvent::Served(None));
    let ContentAction::Fetch(plan, reply) = action else {
        panic!("expected a fetch");
    };
    assert_eq!(
        (plan.page_id, plan.title.as_str(), plan.end_rev_id),
        (7, "Demo_page", 10101)
    );
    assert!(is_408(&reply));
}

#[test]
fn five_digits_make_a_revision() {
    assert!(matches!(
        request_by_title_segment("Foo", "12345"),
        ContentRequest::ByTitleRev(t, 12345) if t == "Foo"
    ));
    for (segment, title) in [("1234", "Foo_Bar/1234"), ("Baz", "Foo_Bar/Baz")] {
        assert!(matches!(
            request_by_title_segment("Foo Bar", segment),
            ContentRequest::ByTitle(t) if t == title
        ));
    }
    assert!(matches!(
        request_by_title_segment("Foo", "99999999999999999999"),
        ContentRequest::ByTitle(_)
    ));
}

#[test]
fn cache_miss_concurrent_requests_spawn_one_task() {
    let mut state = AppState::new("/data");
    assert_eq!(state.storage_root(), "/data");
    assert!(state.try_claim_in_flight("en", 7));
    assert!(!state.try_claim_in_flight("en", 7));
    assert!(state.try_claim_in_flight("de", 7));
    assert!(state.is_in_flight("en", 7));
    state.release_in_flight("en", 7);
    assert!(!state.is_in_flight("en", 7));
    assert!(state.try_claim_in_flight("en", 7));
}

#[test]
fn an_index_that_is_cached_stays() {
    let mut state = AppState::new("/data");
    assert_eq!(state.resolve_title("en", "A"), None);
    let mut index = TitleIndex::empty();
    index.insert("A", 1);
    state.cache_title_index("en", index);
    assert!(state.has_title_index("en"));
    let mut other = TitleIndex::empty();
    other.insert("A", 2);
    state.cache_title_index("en", other);
    assert_eq!(state.resolve_title("en", "A"), Some(1));
    let mut fresh = TitleIndex::empty();
    fresh.insert("A", 3);
    state.refresh_title_index("en", fresh);
    assert_eq!(state.resolve_title("en", "A"), Some(3));
}

#[test]
fn whocolor_rev_id_zero_treats_as_latest() {
    assert_eq!(color_target(0), None);
    assert_eq!(color_target(5), Some(5));
    let now = parse_mw_timestamp("2024-01-03T00:00:00Z").unwrap();
    let job = prepare_whocolor(&article(), "Demo", color_target(0), now)
        .map_err(|r| r.status)
        .unwrap();
    assert_eq!(job.rev_id, 10102);
    assert_eq!(job.data.tokens[0].age_seconds, 2 * 86400);
    assert_eq!(job.data.tokens[1].age_seconds, 86400);
}

#[test]
fn a_colouring_goes_through_text_and_rendering() {
    let (stage, action) = start_whocolor("Demo");
    assert!(matches!(action, ColorAction::FindTitle(_)));
    let (stage, action) = next_whocolor("Demo", None, stage, ColorEvent::Found(Some(7)));
    assert!(matches!(action, ColorAction::ReadPage(7)));
    let (stage, action) =
        next_whocolor("Demo", None, stage, ColorEvent::Read(article(), 1_704_240_000));
    let ColorAction::FetchText(rev_id, editors) = action else {
        panic!("expected a fetch");
    };
    assert_eq!((rev_id, editors), (10102, vec![1, 2]));
    let mut names = HashMap::new();
    names.insert(2u64, "Bob".to_string());
    let fetched = ColorEvent::Fetched(Ok("Hello dear friend.".into()), names);
    let (stage, action) = next_whocolor("Demo", None, stage, fetched);
    let ColorAction::Render(wikitext) = action else {
        panic!("expected a rendering");
    };
    assert!(wikitext.contains("<span class=\"editor-token token-editor-2\" id=\"token-1\"> dear</span>"));
    let (stage, action) =
        next_whocolor("Demo", None, stage, ColorEvent::Rendered(Ok("<p/>".into())));
    assert!(matches!(stage, ColorStage::Done));
    let ColorAction::Respond(reply) = action else {
        panic!("expected an answer");
    };
    let body = serde(&reply.body);
    assert_eq!(reply.status, 200);
    assert_eq!(body["extended_html"], "<p/>");
    assert_eq!(body["revisions"]["10102"][3], "Bob");
    assert_eq!(body["revisions"]["10101"][3], "1");
    assert_eq!(body["present_editors"][0][0], "1");
    assert!((body["present_editors"][0][2].as_f64().unwrap() - 75.0).abs() < 1e-9);
}

#[test]
fn failures_on_the_way_are_told() {
    let read = |event: ColorEvent| {
        let (stage, _) = start_whocolor("Demo");
        let (stage, _) = next_whocolor("Demo", None, stage, ColorEvent::Found(Some(7)));
        let (stage, _) = next_whocolor("Demo", None, stage, ColorEvent::Read(article(), 0));
        let (_, action) = next_whocolor("Demo", None, stage, event);
        let ColorAction::Respond(reply) = action else {
            panic!("expected an answer");
        };
        (reply.status, serde(&reply.body))
    };
    let (status, body) = read(ColorEvent::Unreachable("down".into()));
    assert_eq!(status, 500);
    assert_eq!(body["error"], "internal error: MW client unavailable: down");
    let missing = MwError::PageMissing { page_id: 0 };
    let (status, body) = read(ColorEvent::Fetched(Err(missing), HashMap::new()));
    assert_eq!(status, 503);
    assert_eq!(body["error"], "MW returned no wikitext for this revision");
    let (status, body) = read(ColorEvent::Fetched(
        Err(MwError::Retry("x".into())),
        HashMap::new(),
    ));
    assert_eq!(status, 503);
    assert_eq!(body["error"], "Wikitext fetch failed: exhausted retries: x");
    let (stage, _) = start_whocolor("Demo");
    let (stage, _) = next_whocolor("Demo", None, stage, ColorEvent::Found(Some(7)));
    let (_, action) = next_whocolor("Demo", None, stage, ColorEvent::Unreadable("bad".into()));
    assert!(matches!(action, ColorAction::Respond(r) if r.status == 500));
}

#[test]
fn vandalism_is_told_as_such() {
    let mut a = article();
    a.spam_ids.push(77777);
    let reply = prepare_whocolor(&a, "Demo", Some(77777), 0).err().unwrap();
    assert_eq!(
        serde(&reply.body)["info"],
        "Requested revision (77777) is detected as vandalism by WikiWho."
    );
    assert_eq!(serde(&vandalism_response("Demo", 77777).body), serde(&reply.body));
    let reply = prepare_whocolor(&a, "Demo", Some(5), 0).err().unwrap();
    assert!(serde(&reply.body)["info"]
        .as_str()
        .unwrap()
        .starts_with("Requested data is not currently available"));
}

#[test]
fn days_follow_one_another() {
    let day = |s: &str| parse_mw_timestamp(&format!("{s}T00:00:00Z")).unwrap() / 86400;
    for (a, b) in [
        ("1970-01-01", "1970-01-02"),
        ("2023-02-28", "2023-03-01"),
        ("2024-02-28", "2024-02-29"),
        ("2024-02-29", "2024-03-01"),
        ("1999-12-31", "2000-01-01"),
        ("2000-02-29", "2000-03-01"),
        ("2100-02-28", "2100-03-01"),
    ] {
        assert_eq!(day(b) - day(a), 1, "{a} -> {b}");
    }
    assert_eq!(parse_mw_timestamp("2001-09-09T01:46:40Z"), Some(1_000_000_000));
}

#[test]
fn one_editor_alone_has_no_conflict() {
    let a = build_article_from_revisions(
        "T",
        1,
        &[
            rev(1, 5, "2024-01-01T00:00:00Z", "a b c"),
            rev(2, 5, "2024-01-01T06:00:00Z", "a c"),
            rev(3, 5, "2024-01-01T12:00:00Z", "a b c"),
        ],
    );
    assert_eq!(compute_conflict_score(&a, &[3], &[2]), 0);
}
