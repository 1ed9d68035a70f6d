//! Answers to colouring requests.
use crate::handlers::{
    failure, failure_body, normalize_title, number_or_null, rev_id_value, stored_title, FetchPlan,
    PlanView, Reply, ReplyView,
};
use crate::json::{
    json_fields, jsons, push_field, set_field, with_field, Json, JsonField, JsonValue,
};
use crate::mwclient::info::{PageInfo, PageView};
use crate::mwclient::users::name_views;
use crate::mwclient::{error_text, text_reply, MwError, MwErrorView};
use crate::response::{numbers, numbers_json};
use crate::structures::{Article, ArticleView};
use crate::text::{concat3, concat_text, decimal, decimal_text, fits_u64, number_of, parse_u64};
use crate::whocolor::{
    color_revisions, color_tokens, get_whocolor_data, whocolor, ColorDataView, ColorRevisionView,
    ColorTokenView, WhoColorData, WhoColorError, WhoColorRevision, WhoColorToken,
};
use crate::whocolor_html::{class_name_of, token_class_name, PresentEditorEntry};
use crate::whocolor_wikitext::{
    injected, inject_spans_into_wikitext, present, sought, PresentView, SoughtView, WikitextToken,
};
use std::collections::HashMap;
use vstd::prelude::*;

verus! {

broadcast use vstd::std_specs::hash::group_hash_axioms;

/// What a revision that is not there yet is answered with.
pub const NOT_AVAILABLE: &'static str =
    "Requested data is not currently available in WikiWho database. It will be available soon.";

/// The revision that a request asks for; nothing for the latest, which 0 stands for
/// too.
pub fn color_target(rev_id: u64) -> (r: Option<u64>)
    ensures
        r == (if rev_id == 0 {
            None
        } else {
            Some(rev_id)
        }),
{
    if rev_id == 0 {
        None
    } else {
        Some(rev_id)
    }
}

/// The name that an editor is shown by: the name of a user whose id it is, or the
/// editor as it is.
pub open spec fn shown_name(editor: Seq<char>, names: Map<u64, Seq<char>>) -> Seq<char> {
    match fits_u64(number_of(editor)) {
        Some(id) => if names.contains_key(id) {
            names[id]
        } else {
            editor
        },
        None => editor,
    }
}

/// The name that an editor is shown by.
pub fn display_name(editor: &str, editor_names: &HashMap<u64, String>) -> (r: String)
    ensures
        r@ == shown_name(editor@, name_views(editor_names@)),
{
    if let Some(id) = parse_u64(editor) {
        if let Some(name) = editor_names.get(&id) {
            return name.clone();
        }
    }
    editor.to_owned()
}

/// The users among the editors of the revisions from the `k`th on that are not in
/// `so_far`, each once, behind it.
pub open spec fn users_among(
    revs: Seq<(u64, ColorRevisionView)>,
    k: int,
    so_far: Seq<u64>,
) -> Seq<u64>
    decreases revs.len() - k,
{
    if k < 0 || k >= revs.len() {
        so_far
    } else {
        match fits_u64(number_of(revs[k].1.editor)) {
            Some(id) => if so_far.contains(id) {
                users_among(revs, k + 1, so_far)
            } else {
                users_among(revs, k + 1, so_far.push(id))
            },
            None => users_among(revs, k + 1, so_far),
        }
    }
}

/// Whether a number is in a list.
fn holds(v: &Vec<u64>, x: u64) -> (r: bool)
    ensures
        r == v@.contains(x),
{
    let mut k: usize = 0;
    while k < v.len()
        invariant
            k <= v@.len(),
            forall|i: int| 0 <= i < k ==> v@[i] != x,
        decreases v@.len() - k,
    {
        if v[k] == x {
            return true;
        }
        k = k + 1;
    }
    false
}

/// The users among the editors of a history, each once, in the order of their first
/// revisions. Anonymous editors are none.
pub fn unique_registered_editor_ids(data: &WhoColorData) -> (r: Vec<u64>)
    ensures
        r@ == users_among(data@.revisions, 0, Seq::empty()),
{
    let ghost revs = data@.revisions;
    let ghost goal = users_among(revs, 0, Seq::empty());
    let mut out: Vec<u64> = Vec::new();
    let mut k: usize = 0;
    proof {
        assert(out@ =~= Seq::empty());
    }
    while k < data.revisions.len()
        invariant
            k <= data.revisions@.len(),
            revs == data@.revisions,
            users_among(revs, k as int, out@) == goal,
        decreases data.revisions@.len() - k,
    {
        proof {
            assert(revs[k as int] == (data.revisions@[k as int].0, data.revisions@[k as int].1@));
        }
        if let Some(id) = parse_u64(data.revisions[k].1.editor.as_str()) {
            if !holds(&out, id) {
                out.push(id);
            }
        }
        k = k + 1;
    }
    out
}

/// A token of the answer.
pub open spec fn token_row(t: ColorTokenView) -> Json {
    Json::List(
        seq![
            Json::Number(t.conflict_score),
            Json::Text(t.str),
            Json::Number(t.o_rev_id as int),
            numbers_json(t.inbound),
            numbers_json(t.outbound),
            Json::Text(class_name_of(t.editor)),
            Json::Fraction(t.age_seconds, 1),
        ],
    )
}

/// A revision of the answer.
pub open spec fn revision_row(r: ColorRevisionView, names: Map<u64, Seq<char>>) -> Json {
    Json::List(
        seq![
            Json::Text(r.timestamp),
            Json::Number(r.parent_rev_id as int),
            Json::Text(class_name_of(r.editor)),
            Json::Text(shown_name(r.editor, names)),
        ],
    )
}

/// The revisions of the answer by id: those from the `k`th on, behind `so_far`.
pub open spec fn revision_rows(
    revs: Seq<(u64, ColorRevisionView)>,
    names: Map<u64, Seq<char>>,
    k: int,
    so_far: Seq<(Seq<char>, Json)>,
) -> Seq<(Seq<char>, Json)>
    decreases revs.len() - k,
{
    if k < 0 || k >= revs.len() {
        so_far
    } else {
        revision_rows(
            revs,
            names,
            k + 1,
            with_field(so_far, decimal(revs[k].0 as nat), revision_row(revs[k].1, names)),
        )
    }
}

/// The tokens of the first `k` editors.
pub open spec fn tokens_of_editors(es: Seq<PresentView>, k: int) -> int
    decreases k,
{
    if k <= 0 {
        0
    } else {
        tokens_of_editors(es, k - 1) + es[k - 1].token_count
    }
}

/// An editor of the answer, with their part of all tokens in percent.
pub open spec fn editor_row(e: PresentView, names: Map<u64, Seq<char>>, total: int) -> Json {
    Json::List(
        seq![
            Json::Text(shown_name(e.editor, names)),
            Json::Text(e.class_name),
            if total == 0 {
                Json::Fraction(0, 1)
            } else {
                Json::Fraction(e.token_count * 100, total)
            },
        ],
    )
}

/// The fields of the answer.
pub open spec fn envelope_fields(
    title: Seq<char>,
    rev_id: u64,
    data: ColorDataView,
    names: Map<u64, Seq<char>>,
    html: Seq<char>,
    es: Seq<PresentView>,
) -> Seq<(Seq<char>, Json)> {
    let total = tokens_of_editors(es, es.len() as int);
    seq![
        ("extended_html"@, Json::Text(html)),
        (
            "present_editors"@,
            Json::List(Seq::new(es.len(), |i: int| editor_row(es[i], names, total))),
        ),
        (
            "tokens"@,
            Json::List(Seq::new(data.tokens.len(), |i: int| token_row(data.tokens[i]))),
        ),
        (
            "revisions"@,
            Json::Fields(revision_rows(data.revisions, names, 0, Seq::empty())),
        ),
        ("biggest_conflict_score"@, Json::Number(data.biggest_conflict_score)),
        ("success"@, Json::Bool(true)),
        ("rev_id"@, Json::Number(rev_id as int)),
        ("page_title"@, Json::Text(title)),
    ]
}

/// A token of the answer.
fn build_token_row(t: &WhoColorToken) -> (r: JsonValue)
    ensures
        r@ == token_row(t@),
{
    let mut row: Vec<JsonValue> = Vec::new();
    row.push(JsonValue::Unsigned(t.conflict_score));
    row.push(JsonValue::text(t.str.as_str()));
    row.push(JsonValue::Unsigned(t.o_rev_id as u128));
    row.push(numbers(&t.inbound));
    row.push(numbers(&t.outbound));
    row.push(JsonValue::Text(token_class_name(t.editor.as_str())));
    row.push(JsonValue::Fraction(t.age_seconds, 1));
    proof {
        assert(Json::List(jsons(row@)) == token_row(t@)) by {
            if let Json::List(want) = token_row(t@) {
                assert(jsons(row@) =~= want);
            }
        }
    }
    JsonValue::array(row)
}

/// The tokens of the answer.
fn build_token_rows(tokens: &Vec<WhoColorToken>) -> (r: JsonValue)
    ensures
        r@ == Json::List(
            Seq::new(tokens@.len(), |i: int| token_row(color_tokens(tokens@)[i])),
        ),
{
    let mut rows: Vec<JsonValue> = Vec::new();
    let mut k: usize = 0;
    while k < tokens.len()
        invariant
            k <= tokens@.len(),
            rows@.len() == k,
            forall|i: int| 0 <= i < k ==> (#[trigger] rows@[i])@ == token_row(tokens@[i]@),
        decreases tokens@.len() - k,
    {
        rows.push(build_token_row(&tokens[k]));
        k = k + 1;
    }
    proof {
        assert(jsons(rows@) =~= Seq::new(
            tokens@.len(),
            |i: int| token_row(color_tokens(tokens@)[i]),
        ));
    }
    JsonValue::array(rows)
}

/// A revision of the answer.
fn build_revision_row(rev: &WhoColorRevision, names: &HashMap<u64, String>) -> (r: JsonValue)
    ensures
        r@ == revision_row(rev@, name_views(names@)),
{
    let mut row: Vec<JsonValue> = Vec::new();
    row.push(JsonValue::text(rev.timestamp.as_str()));
    row.push(JsonValue::Unsigned(rev.parent_rev_id as u128));
    row.push(JsonValue::Text(token_class_name(rev.editor.as_str())));
    row.push(JsonValue::Text(display_name(rev.editor.as_str(), names)));
    proof {
        assert(Json::List(jsons(row@)) == revision_row(rev@, name_views(names@))) by {
            if let Json::List(want) = revision_row(rev@, name_views(names@)) {
                assert(jsons(row@) =~= want);
            }
        }
    }
    JsonValue::array(row)
}

/// The revisions of the answer.
fn build_revision_rows(
    revisions: &Vec<(u64, WhoColorRevision)>,
    names: &HashMap<u64, String>,
) -> (r: JsonValue)
    ensures
        r@ == Json::Fields(
            revision_rows(color_revisions(revisions@), name_views(names@), 0, Seq::empty()),
        ),
{
    let ghost revs = color_revisions(revisions@);
    let ghost ns = name_views(names@);
    let ghost goal = revision_rows(revs, ns, 0, Seq::empty());
    let mut fields: Vec<JsonField> = Vec::new();
    let mut k: usize = 0;
    proof {
        assert(json_fields(fields@) =~= Seq::empty());
    }
    while k < revisions.len()
        invariant
            k <= revisions@.len(),
            revs == color_revisions(revisions@),
            ns == name_views(names@),
            revision_rows(revs, ns, k as int, json_fields(fields@)) == goal,
        decreases revisions@.len() - k,
    {
        proof {
            assert(revs[k as int] == (revisions@[k as int].0, revisions@[k as int].1@));
        }
        let id = decimal_text(revisions[k].0);
        let row = build_revision_row(&revisions[k].1, names);
        set_field(&mut fields, id.as_str(), row);
        k = k + 1;
    }
    JsonValue::object(fields)
}

/// The editors of the answer.
fn build_editor_rows(es: &[PresentEditorEntry], names: &HashMap<u64, String>) -> (r: JsonValue)
    ensures
        r@ == Json::List(
            Seq::new(
                es@.len(),
                |i: int|
                    editor_row(
                        present(es@)[i],
                        name_views(names@),
                        tokens_of_editors(present(es@), es@.len() as int),
                    ),
            ),
        ),
{
    let ghost all = present(es@);
    let ghost ns = name_views(names@);
    let n: usize = es.len();
    let mut total: u128 = 0;
    let mut k: usize = 0;
    while k < n
        invariant
            n == es@.len(),
            k <= n,
            all == present(es@),
            total == tokens_of_editors(all, k as int),
            total <= k * 0x1_0000_0000_0000_0000,
        decreases n - k,
    {
        proof {
            assert(all[k as int] == es@[k as int]@);
        }
        total = total + es[k].token_count as u128;
        k = k + 1;
    }
    let mut rows: Vec<JsonValue> = Vec::new();
    let mut i: usize = 0;
    while i < n
        invariant
            n == es@.len(),
            i <= n,
            all == present(es@),
            ns == name_views(names@),
            rows@.len() == i,
            forall|m: int|
                0 <= m < i ==> (#[trigger] rows@[m])@ == editor_row(all[m], ns, total as int),
        decreases n - i,
    {
        proof {
            assert(all[i as int] == es@[i as int]@);
        }
        let part = if total == 0 {
            JsonValue::Fraction(0, 1)
        } else {
            JsonValue::Fraction(es[i].token_count as i128 * 100, total)
        };
        let mut row: Vec<JsonValue> = Vec::new();
        row.push(JsonValue::Text(display_name(es[i].editor.as_str(), names)));
        row.push(JsonValue::text(es[i].class_name.as_str()));
        row.push(part);
        proof {
            assert(Json::List(jsons(row@)) == editor_row(all[i as int], ns, total as int)) by {
                if let Json::List(want) = editor_row(all[i as int], ns, total as int) {
                    assert(jsons(row@) =~= want);
                }
            }
        }
        rows.push(JsonValue::array(row));
        i = i + 1;
    }
    proof {
        assert(jsons(rows@) =~= Seq::new(
            es@.len(),
            |i: int| editor_row(all[i], ns, tokens_of_editors(all, es@.len() as int)),
        ));
    }
    JsonValue::array(rows)
}

/// Builds the body of an answer.
pub fn build_whocolor_envelope(
    title: &str,
    rev_id: u64,
    data: &WhoColorData,
    editor_names: &HashMap<u64, String>,
    extended_html: String,
    present_editors: &[PresentEditorEntry],
) -> (r: JsonValue)
    ensures
        r@ == Json::Fields(
            envelope_fields(
                title@,
                rev_id,
                data@,
                name_views(editor_names@),
                extended_html@,
                present(present_editors@),
            ),
        ),
{
    let ghost want = envelope_fields(
        title@,
        rev_id,
        data@,
        name_views(editor_names@),
        extended_html@,
        present(present_editors@),
    );
    let mut fields: Vec<JsonField> = Vec::new();
    push_field(&mut fields, "extended_html", JsonValue::Text(extended_html));
    push_field(&mut fields, "present_editors", build_editor_rows(present_editors, editor_names));
    push_field(&mut fields, "tokens", build_token_rows(&data.tokens));
    push_field(&mut fields, "revisions", build_revision_rows(&data.revisions, editor_names));
    push_field(
        &mut fields,
        "biggest_conflict_score",
        JsonValue::Unsigned(data.biggest_conflict_score),
    );
    push_field(&mut fields, "success", JsonValue::Bool(true));
    push_field(&mut fields, "rev_id", JsonValue::Unsigned(rev_id as u128));
    push_field(&mut fields, "page_title", JsonValue::text(title));
    proof {
        assert(json_fields(fields@) =~= want);
    }
    JsonValue::object(fields)
}

/// The answer for a revision that is not there yet.
pub open spec fn unavailable_reply(title: Seq<char>, rev_id: Option<u64>) -> ReplyView {
    ReplyView {
        status: 200,
        body: failure_body("info"@, NOT_AVAILABLE@, number_or_null(rev_id), Json::Text(title)),
    }
}

/// The answer for a revision that is not there yet.
pub fn still_processing(title: &str, rev_id: Option<u64>) -> (r: Reply)
    ensures
        r@ == unavailable_reply(title@, rev_id),
{
    Reply {
        status: 200,
        body: failure("info", NOT_AVAILABLE, rev_id_value(rev_id), JsonValue::text(title)),
    }
}

/// The answer for a revision that was taken for vandalism.
pub open spec fn vandalism_reply(title: Seq<char>, rev_id: u64) -> ReplyView {
    ReplyView {
        status: 200,
        body: failure_body(
            "info"@,
            "Requested revision ("@ + decimal(rev_id as nat)
                + ") is detected as vandalism by WikiWho."@,
            Json::Number(rev_id as int),
            Json::Text(title),
        ),
    }
}

/// The answer for a revision that was taken for vandalism.
pub fn vandalism_response(title: &str, rev_id: u64) -> (r: Reply)
    ensures
        r@ == vandalism_reply(title@, rev_id),
{
    let info = concat3(
        "Requested revision (",
        decimal_text(rev_id).as_str(),
        ") is detected as vandalism by WikiWho.",
    );
    Reply {
        status: 200,
        body: failure(
            "info",
            info.as_str(),
            JsonValue::Unsigned(rev_id as u128),
            JsonValue::text(title),
        ),
    }
}

/// The answer when the server or the wiki failed.
pub open spec fn failed_reply(
    status: u16,
    message: Seq<char>,
    title: Seq<char>,
    rev_id: Option<u64>,
) -> ReplyView {
    ReplyView {
        status,
        body: failure_body("error"@, message, number_or_null(rev_id), Json::Text(title)),
    }
}

/// The answer when the server failed.
pub fn error_500(message: &str, title: &str) -> (r: Reply)
    ensures
        r@ == failed_reply(500, message@, title@, None),
{
    Reply {
        status: 500,
        body: failure("error", message, rev_id_value(None), JsonValue::text(title)),
    }
}

/// The answer when the wiki failed.
pub fn error_503(message: &str, title: &str, rev_id: Option<u64>) -> (r: Reply)
    ensures
        r@ == failed_reply(503, message@, title@, rev_id),
{
    Reply {
        status: 503,
        body: failure("error", message, rev_id_value(rev_id), JsonValue::text(title)),
    }
}

/// A revision to be coloured.
#[derive(Debug)]
pub struct WhoColorJob {
    pub rev_id: u64,
    pub data: WhoColorData,
}

/// The model of a revision to be coloured.
pub struct JobView {
    pub rev_id: u64,
    pub data: ColorDataView,
}

impl View for WhoColorJob {
    type V = JobView;

    open spec fn view(&self) -> JobView {
        JobView { rev_id: self.rev_id, data: self.data@ }
    }
}

/// The revision of an article to be coloured: the one asked for, or the latest. `Err`
/// is the answer where there is none: it is not there yet, or was taken for
/// vandalism.
pub open spec fn color_job(a: ArticleView, title: Seq<char>, target: Option<u64>, now: int) -> Result<
    JobView,
    ReplyView,
> {
    let rev = match target {
        Some(r) => Some(r),
        None => if a.ordered_revisions.len() > 0 {
            Some(a.ordered_revisions.last())
        } else {
            None
        },
    };
    match rev {
        None => Err(unavailable_reply(title, target)),
        Some(r) => if !a.revisions.contains_key(r) {
            if a.spam_ids.contains(r) {
                Err(vandalism_reply(title, r))
            } else {
                Err(unavailable_reply(title, Some(r)))
            }
        } else {
            match whocolor(a, r, now) {
                Ok(data) => Ok(JobView { rev_id: r, data }),
                Err(WhoColorError::UnknownRevision(_)) => Err(unavailable_reply(title, Some(r))),
                Err(e) => Err(failed_reply(500, "internal error: "@ + e.said(), title, None)),
            }
        },
    }
}

/// Finds the revision of an article to be coloured.
pub fn prepare_whocolor(
    article: &Article,
    title: &str,
    target: Option<u64>,
    now_unix_seconds: i64,
) -> (r: Result<WhoColorJob, Reply>)
    requires
        article@.wf(),
    ensures
        match r {
            Ok(j) => color_job(article@, title@, target, now_unix_seconds as int) == Ok::<
                JobView,
                ReplyView,
            >(j@),
            Err(e) => color_job(article@, title@, target, now_unix_seconds as int) == Err::<
                JobView,
                ReplyView,
            >(e@),
        },
{
    let n: usize = article.ordered_revisions.len();
    let rev_id = match target {
        Some(r) => r,
        None => {
            if n == 0 {
                return Err(still_processing(title, target));
            }
            article.ordered_revisions[n - 1]
        },
    };
    if !article.revisions.contains_key(&rev_id) {
        if holds(&article.spam_ids, rev_id) {
            return Err(vandalism_response(title, rev_id));
        }
        return Err(still_processing(title, Some(rev_id)));
    }
    match get_whocolor_data(article, rev_id, now_unix_seconds) {
        Ok(data) => Ok(WhoColorJob { rev_id, data }),
        Err(WhoColorError::UnknownRevision(_)) => Err(still_processing(title, Some(rev_id))),
        Err(e) => {
            let message = concat_text("internal error: ", e.message().as_str());
            Err(error_500(message.as_str(), title))
        },
    }
}

/// The tokens to be found in the source.
pub open spec fn sought_tokens(ts: Seq<ColorTokenView>) -> Seq<SoughtView> {
    Seq::new(
        ts.len(),
        |i: int|
            SoughtView {
                str: ts[i].str,
                editor: ts[i].editor,
                class_name: class_name_of(ts[i].editor),
            },
    )
}

/// The tokens to be found in the source.
pub fn wikitext_tokens(data: &WhoColorData) -> (r: Vec<WikitextToken>)
    ensures
        sought(r@) == sought_tokens(data@.tokens),
{
    let mut out: Vec<WikitextToken> = Vec::new();
    let mut k: usize = 0;
    while k < data.tokens.len()
        invariant
            k <= data.tokens@.len(),
            out@.len() == k,
            forall|i: int|
                0 <= i < k ==> (#[trigger] out@[i])@ == (SoughtView {
                    str: data.tokens@[i].str@,
                    editor: data.tokens@[i].editor@,
                    class_name: class_name_of(data.tokens@[i].editor@),
                }),
        decreases data.tokens@.len() - k,
    {
        let t = &data.tokens[k];
        out.push(
            WikitextToken {
                str: t.str.clone(),
                editor: t.editor.clone(),
                class_name: token_class_name(t.editor.as_str()),
            },
        );
        k = k + 1;
    }
    proof {
        assert(sought(out@) =~= sought_tokens(data@.tokens));
    }
    out
}

/// Where the answer to a request stands.
pub enum ColorStage {
    /// The page is being looked up in the index.
    Finding,
    /// The page is being read.
    Reading,
    /// The wiki is being asked for the page.
    Asking,
    /// The source of the revision and the names of its editors are being fetched.
    Fetching(WhoColorJob),
    /// The source with spans is being rendered.
    Rendering(WhoColorJob, HashMap<u64, String>, Vec<PresentEditorEntry>),
    /// It is answered.
    Done,
}

/// The model of where the answer stands.
pub enum ColorStageView {
    Finding,
    Reading,
    Asking,
    Fetching(JobView),
    Rendering(JobView, Map<u64, Seq<char>>, Seq<PresentView>),
    Done,
}

impl View for ColorStage {
    type V = ColorStageView;

    open spec fn view(&self) -> ColorStageView {
        match self {
            ColorStage::Finding => ColorStageView::Finding,
            ColorStage::Reading => ColorStageView::Reading,
            ColorStage::Asking => ColorStageView::Asking,
            ColorStage::Fetching(j) => ColorStageView::Fetching(j@),
            ColorStage::Rendering(j, names, es) => ColorStageView::Rendering(
                j@,
                name_views(names@),
                present(es@),
            ),
            ColorStage::Done => ColorStageView::Done,
        }
    }
}

/// What came of the last action.
pub enum ColorEvent {
    /// The page that the index has, where it has one.
    Found(Option<u64>),
    /// There is no such page.
    NotRead,
    /// The page cannot be read.
    Unreadable(String),
    /// The page, and the time.
    Read(Article, i64),
    /// What the wiki says of the page, where it says something.
    Resolved(Option<PageInfo>),
    /// The wiki cannot be reached.
    Unreachable(String),
    /// The source of the revision, and the names of editors that are known.
    Fetched(Result<String, MwError>, HashMap<u64, String>),
    /// The rendering.
    Rendered(Result<String, MwError>),
}

/// The model of what came of the last action.
pub enum ColorEventView {
    Found(Option<u64>),
    NotRead,
    Unreadable(Seq<char>),
    Read(ArticleView, int),
    Resolved(Option<PageView>),
    Unreachable(Seq<char>),
    Fetched(Result<Seq<char>, MwErrorView>, Map<u64, Seq<char>>),
    Rendered(Result<Seq<char>, MwErrorView>),
}

impl View for ColorEvent {
    type V = ColorEventView;

    open spec fn view(&self) -> ColorEventView {
        match self {
            ColorEvent::Found(p) => ColorEventView::Found(*p),
            ColorEvent::NotRead => ColorEventView::NotRead,
            ColorEvent::Unreadable(s) => ColorEventView::Unreadable(s@),
            ColorEvent::Read(a, now) => ColorEventView::Read(a@, *now as int),
            ColorEvent::Resolved(i) => ColorEventView::Resolved(
                match *i {
                    Some(x) => Some(x@),
                    None => None,
                },
            ),
            ColorEvent::Unreachable(s) => ColorEventView::Unreachable(s@),
            ColorEvent::Fetched(t, names) => ColorEventView::Fetched(
                text_reply(*t),
                name_views(names@),
            ),
            ColorEvent::Rendered(t) => ColorEventView::Rendered(text_reply(*t)),
        }
    }
}

/// What to do next.
pub enum ColorAction {
    /// Look a title up in the index.
    FindTitle(String),
    /// Read a page.
    ReadPage(u64),
    /// Ask the wiki for the page of a title.
    AskTitle(String),
    /// Fetch the source of a revision and the names of users.
    FetchText(u64, Vec<u64>),
    /// Render a source.
    Render(String),
    /// Answer.
    Respond(Reply),
    /// Fetch a history unless it is being fetched, and answer.
    Fetch(FetchPlan, Reply),
}

/// The model of what to do next.
pub enum ColorActionView {
    FindTitle(Seq<char>),
    ReadPage(u64),
    AskTitle(Seq<char>),
    FetchText(u64, Seq<u64>),
    Render(Seq<char>),
    Respond(ReplyView),
    Fetch(PlanView, ReplyView),
}

impl View for ColorAction {
    type V = ColorActionView;

    open spec fn view(&self) -> ColorActionView {
        match self {
            ColorAction::FindTitle(t) => ColorActionView::FindTitle(t@),
            ColorAction::ReadPage(p) => ColorActionView::ReadPage(*p),
            ColorAction::AskTitle(t) => ColorActionView::AskTitle(t@),
            ColorAction::FetchText(r, ids) => ColorActionView::FetchText(*r, ids@),
            ColorAction::Render(t) => ColorActionView::Render(t@),
            ColorAction::Respond(r) => ColorActionView::Respond(r@),
            ColorAction::Fetch(p, r) => ColorActionView::Fetch(p@, r@),
        }
    }
}

/// The history to fetch for a title, by what the wiki says of the page.
pub open spec fn color_plan(target: Option<u64>, info: PageView) -> PlanView {
    PlanView {
        page_id: info.page_id,
        title: stored_title(info.title),
        end_rev_id: match target {
            Some(r) => r,
            None => info.last_revid,
        },
    }
}

/// What to do next.
pub open spec fn color_step(
    title: Seq<char>,
    target: Option<u64>,
    stage: ColorStageView,
    event: ColorEventView,
) -> (ColorStageView, ColorActionView) {
    match (stage, event) {
        (ColorStageView::Finding, ColorEventView::Found(Some(p))) => (
            ColorStageView::Reading,
            ColorActionView::ReadPage(p),
        ),
        (ColorStageView::Finding, ColorEventView::Found(None)) => (
            ColorStageView::Asking,
            ColorActionView::AskTitle(title),
        ),
        (ColorStageView::Reading, ColorEventView::NotRead) => (
            ColorStageView::Asking,
            ColorActionView::AskTitle(title),
        ),
        (ColorStageView::Reading, ColorEventView::Unreadable(message)) => (
            ColorStageView::Done,
            ColorActionView::Respond(failed_reply(500, message, title, None)),
        ),
        (ColorStageView::Reading, ColorEventView::Read(a, now)) => match color_job(
            a,
            title,
            target,
            now,
        ) {
            Ok(j) => (
                ColorStageView::Fetching(j),
                ColorActionView::FetchText(
                    j.rev_id,
                    users_among(j.data.revisions, 0, Seq::empty()),
                ),
            ),
            Err(r) => (ColorStageView::Done, ColorActionView::Respond(r)),
        },
        (ColorStageView::Asking, ColorEventView::Resolved(Some(info))) => (
            ColorStageView::Done,
            ColorActionView::Fetch(color_plan(target, info), unavailable_reply(title, target)),
        ),
        (ColorStageView::Fetching(_), ColorEventView::Unreachable(message)) => (
            ColorStageView::Done,
            ColorActionView::Respond(
                failed_reply(
                    500,
                    "internal error: MW client unavailable: "@ + message,
                    title,
                    None,
                ),
            ),
        ),
        (ColorStageView::Fetching(j), ColorEventView::Fetched(Ok(text), names)) => {
            let i = injected(text, sought_tokens(j.data.tokens));
            (
                ColorStageView::Rendering(j, names, i.present_editors),
                ColorActionView::Render(i.wikitext),
            )
        },
        (ColorStageView::Fetching(j), ColorEventView::Fetched(Err(e), _)) => (
            ColorStageView::Done,
            ColorActionView::Respond(
                failed_reply(
                    503,
                    if e is PageMissing {
                        "MW returned no wikitext for this revision"@
                    } else {
                        "Wikitext fetch failed: "@ + error_text(e)
                    },
                    title,
                    Some(j.rev_id),
                ),
            ),
        ),
        (ColorStageView::Rendering(j, names, es), ColorEventView::Rendered(Ok(html))) => (
            ColorStageView::Done,
            ColorActionView::Respond(
                ReplyView {
                    status: 200,
                    body: Json::Fields(envelope_fields(title, j.rev_id, j.data, names, html, es)),
                },
            ),
        ),
        (ColorStageView::Rendering(j, _, _), ColorEventView::Rendered(Err(e))) => (
            ColorStageView::Done,
            ColorActionView::Respond(
                failed_reply(
                    503,
                    "Wikitext render failed: "@ + error_text(e),
                    title,
                    Some(j.rev_id),
                ),
            ),
        ),
        _ => (ColorStageView::Done, ColorActionView::Respond(unavailable_reply(title, target))),
    }
}

/// How a request begins: the title is looked up.
pub fn start_whocolor(title: &str) -> (r: (ColorStage, ColorAction))
    ensures
        r.0@ == ColorStageView::Finding,
        r.1@ == ColorActionView::FindTitle(title@),
{
    (ColorStage::Finding, ColorAction::FindTitle(title.to_owned()))
}

/// What to do once the source was fetched.
fn after_fetch(
    title: &str,
    job: WhoColorJob,
    text: Result<String, MwError>,
    names: HashMap<u64, String>,
    Ghost(target): Ghost<Option<u64>>,
) -> (r: (ColorStage, ColorAction))
    ensures
        (r.0@, r.1@) == color_step(
            title@,
            target,
            ColorStageView::Fetching(job@),
            ColorEventView::Fetched(text_reply(text), name_views(names@)),
        ),
{
    match text {
        Ok(source) => {
            let tokens = wikitext_tokens(&job.data);
            let i = inject_spans_into_wikitext(source.as_str(), tokens.as_slice());
            (
                ColorStage::Rendering(job, names, i.present_editors),
                ColorAction::Render(i.wikitext),
            )
        },
        Err(MwError::PageMissing { .. }) => (
            ColorStage::Done,
            ColorAction::Respond(
                error_503(
                    "MW returned no wikitext for this revision",
                    title,
                    Some(job.rev_id),
                ),
            ),
        ),
        Err(e) => {
            let message = concat_text("Wikitext fetch failed: ", e.message().as_str());
            (
                ColorStage::Done,
                ColorAction::Respond(error_503(message.as_str(), title, Some(job.rev_id))),
            )
        },
    }
}

/// What to do once the source was rendered.
fn after_render(
    title: &str,
    job: WhoColorJob,
    names: HashMap<u64, String>,
    editors: Vec<PresentEditorEntry>,
    html: Result<String, MwError>,
    Ghost(target): Ghost<Option<u64>>,
) -> (r: (ColorStage, ColorAction))
    ensures
        (r.0@, r.1@) == color_step(
            title@,
            target,
            ColorStageView::Rendering(job@, name_views(names@), present(editors@)),
            ColorEventView::Rendered(text_reply(html)),
        ),
{
    match html {
        Ok(html) => {
            let body = build_whocolor_envelope(
                title,
                job.rev_id,
                &job.data,
                &names,
                html,
                editors.as_slice(),
            );
            (ColorStage::Done, ColorAction::Respond(Reply { status: 200, body }))
        },
        Err(e) => {
            let message = concat_text("Wikitext render failed: ", e.message().as_str());
            (
                ColorStage::Done,
                ColorAction::Respond(error_503(message.as_str(), title, Some(job.rev_id))),
            )
        },
    }
}

/// What to do next.
pub fn next_whocolor(
    title: &str,
    target: Option<u64>,
    stage: ColorStage,
    event: ColorEvent,
) -> (r: (ColorStage, ColorAction))
    requires
        event@ matches ColorEventView::Read(a, _) ==> a.wf(),
    ensures
        (r.0@, r.1@) == color_step(title@, target, stage@, event@),
{
    match (stage, event) {
        (ColorStage::Finding, ColorEvent::Found(Some(p))) => (
            ColorStage::Reading,
            ColorAction::ReadPage(p),
        ),
        (ColorStage::Finding, ColorEvent::Found(None)) => (
            ColorStage::Asking,
            ColorAction::AskTitle(title.to_owned()),
        ),
        (ColorStage::Reading, ColorEvent::NotRead) => (
            ColorStage::Asking,
            ColorAction::AskTitle(title.to_owned()),
        ),
        (ColorStage::Reading, ColorEvent::Unreadable(message)) => (
            ColorStage::Done,
            ColorAction::Respond(error_500(message.as_str(), title)),
        ),
        (ColorStage::Reading, ColorEvent::Read(article, now)) => match prepare_whocolor(
            &article,
            title,
            target,
            now,
        ) {
            Ok(job) => {
                let ids = unique_registered_editor_ids(&job.data);
                let rev_id = job.rev_id;
                (ColorStage::Fetching(job), ColorAction::FetchText(rev_id, ids))
            },
            Err(r) => (ColorStage::Done, ColorAction::Respond(r)),
        },
        (ColorStage::Asking, ColorEvent::Resolved(Some(info))) => {
            let plan = FetchPlan {
                page_id: info.page_id,
                title: normalize_title(info.title.as_str()),
                end_rev_id: match target {
                    Some(r) => r,
                    None => info.last_revid,
                },
            };
            (ColorStage::Done, ColorAction::Fetch(plan, still_processing(title, target)))
        },
        (ColorStage::Fetching(_), ColorEvent::Unreachable(message)) => {
            let text = concat_text("internal error: MW client unavailable: ", message.as_str());
            (ColorStage::Done, ColorAction::Respond(error_500(text.as_str(), title)))
        },
        (ColorStage::Fetching(job), ColorEvent::Fetched(text, names)) => after_fetch(
            title,
            job,
            text,
            names,
            Ghost(target),
        ),
        (ColorStage::Rendering(job, names, editors), ColorEvent::Rendered(html)) => after_render(
            title,
            job,
            names,
            editors,
            html,
            Ghost(target),
        ),
        _ => (ColorStage::Done, ColorAction::Respond(still_processing(title, target))),
    }
}

/// How far an answer has come.
pub open spec fn color_progress(stage: ColorStageView) -> int {
    match stage {
        ColorStageView::Finding => 0,
        ColorStageView::Reading => 1,
        ColorStageView::Asking => 2,
        ColorStageView::Fetching(_) => 3,
        ColorStageView::Rendering(_, _, _) => 4,
        ColorStageView::Done => 5,
    }
}

/// Every step brings the answer nearer, so that a request is answered after a few;
/// it is done exactly when it is answered.
pub proof fn color_requests_are_answered(
    title: Seq<char>,
    target: Option<u64>,
    stage: ColorStageView,
    event: ColorEventView,
)
    ensures
        ({
            let (next, action) = color_step(title, target, stage, event);
            &&& !(stage is Done) ==> color_progress(next) > color_progress(stage)
            &&& next is Done <==> (action is Respond || action is Fetch)
        }),
{
}

/// A revision that was taken for vandalism is answered as such, not as one that will
/// be there soon.
pub proof fn vandalism_is_told(a: ArticleView, title: Seq<char>, rev_id: u64, now: int)
    requires
        a.spam_ids.contains(rev_id),
        !a.revisions.contains_key(rev_id),
    ensures
        color_job(a, title, Some(rev_id), now) == Err::<JobView, ReplyView>(
            vandalism_reply(title, rev_id),
        ),
{
}

} // verus!
