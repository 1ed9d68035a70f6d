//! What is answered to a request.
pub mod rev_content;
pub mod whocolor;

use crate::json::{json_fields, push_field, Json, JsonField, JsonValue};
use crate::text::{chars_of, replace_text, replaced, replaced_from, string_from};
use vstd::prelude::*;

verus! {

/// An answer: a status and a body.
#[derive(Debug)]
pub struct Reply {
    pub status: u16,
    pub body: JsonValue,
}

/// The model of an answer.
pub struct ReplyView {
    pub status: u16,
    pub body: Json,
}

impl View for Reply {
    type V = ReplyView;

    open spec fn view(&self) -> ReplyView {
        ReplyView { status: self.status, body: self.body@ }
    }
}

/// The model of an answer that may be missing.
pub open spec fn opt_reply(r: Option<Reply>) -> Option<ReplyView> {
    match r {
        Some(x) => Some(x@),
        None => None,
    }
}

/// A history to fetch: the page, the title that it is stored under, and the last
/// revision.
#[derive(Debug)]
pub struct FetchPlan {
    pub page_id: u64,
    pub title: String,
    pub end_rev_id: u64,
}

/// The model of a history to fetch.
pub struct PlanView {
    pub page_id: u64,
    pub title: Seq<char>,
    pub end_rev_id: u64,
}

impl View for FetchPlan {
    type V = PlanView;

    open spec fn view(&self) -> PlanView {
        PlanView { page_id: self.page_id, title: self.title@, end_rev_id: self.end_rev_id }
    }
}

/// A title as it is stored: with underscores for spaces.
pub open spec fn stored_title(raw: Seq<char>) -> Seq<char> {
    replaced(raw, " "@, "_"@)
}

/// A title as it is stored.
pub fn normalize_title(raw: &str) -> (r: String)
    ensures
        r@ == stored_title(raw@),
{
    proof {
        reveal_strlit(" ");
    }
    string_from(&replace_text(&chars_of(raw), " ", "_"))
}

/// A number that may be missing as JSON.
pub open spec fn number_or_null(id: Option<u64>) -> Json {
    match id {
        Some(n) => Json::Number(n as int),
        None => Json::Null,
    }
}

/// A number that may be missing as JSON.
pub fn rev_id_value(rev_id: Option<u64>) -> (r: JsonValue)
    ensures
        r@ == number_or_null(rev_id),
{
    match rev_id {
        Some(n) => JsonValue::Unsigned(n as u128),
        None => JsonValue::Null,
    }
}

/// The body of an answer that is no success.
pub open spec fn failure_body(key: Seq<char>, text: Seq<char>, rev_id: Json, title: Json) -> Json {
    Json::Fields(
        seq![
            (key, Json::Text(text)),
            ("success"@, Json::Bool(false)),
            ("rev_id"@, rev_id),
            ("page_title"@, title),
        ],
    )
}

/// The body of an answer that is no success.
pub fn failure(key: &str, text: &str, rev_id: JsonValue, title: JsonValue) -> (r: JsonValue)
    ensures
        r@ == failure_body(key@, text@, rev_id@, title@),
{
    let mut fields: Vec<JsonField> = Vec::new();
    push_field(&mut fields, key, JsonValue::text(text));
    push_field(&mut fields, "success", JsonValue::Bool(false));
    push_field(&mut fields, "rev_id", rev_id);
    push_field(&mut fields, "page_title", title);
    proof {
        assert(json_fields(fields@) =~= seq![
            (key@, Json::Text(text@)),
            ("success"@, Json::Bool(false)),
            ("rev_id"@, rev_id@),
            ("page_title"@, title@),
        ]);
    }
    JsonValue::object(fields)
}

/// A stored title is the title with an underscore for each space, and nothing else
/// changed.
pub proof fn titles_change_only_spaces(raw: Seq<char>)
    ensures
        stored_title(raw).len() == raw.len(),
        forall|i: int|
            0 <= i < raw.len() ==> #[trigger] stored_title(raw)[i] == if raw[i] == ' ' {
                '_'
            } else {
                raw[i]
            },
{
    reveal_strlit(" ");
    reveal_strlit("_");
    lemma_title_from(raw, 0);
}

proof fn lemma_title_from(raw: Seq<char>, k: int)
    requires
        0 <= k <= raw.len(),
    ensures
        ({
            let t = replaced_from(raw, " "@, "_"@, k);
            &&& t.len() == raw.len() - k
            &&& forall|i: int|
                0 <= i < t.len() ==> #[trigger] t[i] == if raw[k + i] == ' ' {
                    '_'
                } else {
                    raw[k + i]
                }
        }),
    decreases raw.len() - k,
{
    reveal_strlit(" ");
    reveal_strlit("_");
    if k < raw.len() {
        lemma_title_from(raw, k + 1);
        let here = raw.subrange(k, k + 1);
        assert(here[0] == raw[k]);
        if raw[k] == ' ' {
            assert(here =~= " "@);
        }
        let rest = replaced_from(raw, " "@, "_"@, k + 1);
        let t = replaced_from(raw, " "@, "_"@, k);
        assert forall|i: int| 0 <= i < t.len() implies #[trigger] t[i] == (if raw[k + i] == ' ' {
            '_'
        } else {
            raw[k + i]
        }) by {
            if i > 0 {
                assert(t[i] == rest[i - 1]);
            }
        }
    }
}

} // verus!
