//! Answers to content requests.
use crate::handlers::{
    failure, failure_body, normalize_title, opt_reply, stored_title, FetchPlan, PlanView, Reply,
    ReplyView,
};
use crate::json::{json_fields, push_field, Json, JsonField, JsonValue};
use crate::mwclient::info::{PageInfo, PageView};
use crate::response::{build_rev_content, content_fields, rev_content, ResponseParameters};
use crate::structures::{Article, ArticleView};
use crate::text::{
    chars_of, concat3, fits_u64, is_digit, number_of, parse_u64,
};
use vstd::prelude::*;

verus! {

broadcast use vstd::std_specs::hash::group_hash_axioms;

/// What a page whose history is not there yet is answered with.
pub const STILL_PROCESSING: &'static str =
    "Process took more than 240 seconds. Requested data will be available soon (Max 300 seconds). Please try again later.";

/// What is asked for: the content of a revision, or the latest of a page.
#[derive(Debug)]
pub enum ContentRequest {
    ByRevId(u64),
    ByPageId(u64),
    ByTitle(String),
    ByTitleRev(String, u64),
}

/// The model of what is asked for.
pub enum RequestView {
    ByRevId(u64),
    ByPageId(u64),
    ByTitle(Seq<char>),
    ByTitleRev(Seq<char>, u64),
}

impl View for ContentRequest {
    type V = RequestView;

    open spec fn view(&self) -> RequestView {
        match self {
            ContentRequest::ByRevId(r) => RequestView::ByRevId(*r),
            ContentRequest::ByPageId(p) => RequestView::ByPageId(*p),
            ContentRequest::ByTitle(t) => RequestView::ByTitle(t@),
            ContentRequest::ByTitleRev(t, r) => RequestView::ByTitleRev(t@, *r),
        }
    }
}

/// The revision that is asked for; nothing for the latest.
pub open spec fn target_of(q: RequestView) -> Option<u64> {
    match q {
        RequestView::ByRevId(r) => Some(r),
        RequestView::ByTitleRev(_, r) => Some(r),
        _ => None,
    }
}

/// Whether a part of an address names a revision: five digits at least, of a number
/// that fits.
pub open spec fn names_revision(segment: Seq<char>) -> Option<u64> {
    if segment.len() >= 5 && (forall|i: int|
        0 <= i < segment.len() ==> is_digit(#[trigger] segment[i])) {
        fits_u64(number_of(segment))
    } else {
        None
    }
}

/// What an address of a title and another part asks for: a revision of the title, or
/// the latest of the title that has a slash in it.
pub open spec fn title_request(title: Seq<char>, segment: Seq<char>) -> RequestView {
    match names_revision(segment) {
        Some(r) => RequestView::ByTitleRev(stored_title(title), r),
        None => RequestView::ByTitle(stored_title(title + "/"@ + segment)),
    }
}

/// What an address of a title and another part asks for. Titles may have slashes in
/// them, so that a part with fewer than five digits belongs to the title.
pub fn request_by_title_segment(title: &str, segment: &str) -> (r: ContentRequest)
    ensures
        r@ == title_request(title@, segment@),
{
    let c = chars_of(segment);
    let mut digits = c.len() >= 5;
    let mut k: usize = 0;
    while k < c.len()
        invariant
            k <= c@.len(),
            c@ == segment@,
            digits == (c@.len() >= 5 && (forall|i: int| 0 <= i < k ==> is_digit(#[trigger] c@[i]))),
        decreases c@.len() - k,
    {
        if c[k] < '0' || c[k] > '9' {
            digits = false;
        }
        k = k + 1;
    }
    if digits {
        if let Some(rev_id) = parse_u64(segment) {
            return ContentRequest::ByTitleRev(normalize_title(title), rev_id);
        }
    }
    ContentRequest::ByTitle(normalize_title(concat3(title, "/", segment).as_str()))
}

/// What an article answers: the content of the revision asked for, or of the latest;
/// nothing where there is none yet.
pub open spec fn served(a: ArticleView, target: Option<u64>, p: ResponseParameters) -> Option<
    ReplyView,
> {
    let rev = match target {
        Some(r) => Some(r),
        None => if a.ordered_revisions.len() > 0 {
            Some(a.ordered_revisions.last())
        } else {
            None
        },
    };
    match rev {
        None => None,
        Some(r) => match rev_content(a, seq![r], p) {
            Ok(c) => Some(ReplyView { status: 200, body: Json::Fields(content_fields(c)) }),
            Err(e) => Some(
                ReplyView { status: 400, body: Json::Fields(seq![("Error"@, Json::Text(e))]) },
            ),
        },
    }
}

/// What an article answers.
pub fn serve_article(article: &Article, target: Option<u64>, params: ResponseParameters) -> (r:
    Option<Reply>)
    requires
        article@.wf(),
    ensures
        opt_reply(r) == served(article@, target, params),
{
    let n: usize = article.ordered_revisions.len();
    let rev_id = match target {
        Some(r) => r,
        None => {
            if n == 0 {
                return None;
            }
            article.ordered_revisions[n - 1]
        },
    };
    let mut ids: Vec<u64> = Vec::new();
    ids.push(rev_id);
    proof {
        assert(ids@ =~= seq![rev_id]);
    }
    match build_rev_content(article, ids.as_slice(), params) {
        Ok(c) => Some(Reply { status: 200, body: c.to_json() }),
        Err(e) => Some(Reply { status: 400, body: e.to_json() }),
    }
}

/// The answer while a history is being fetched.
pub open spec fn processing_reply() -> ReplyView {
    ReplyView {
        status: 408,
        body: Json::Fields(seq![("Info"@, Json::Text(STILL_PROCESSING@))]),
    }
}

/// The answer while a history is being fetched.
pub fn still_processing() -> (r: Reply)
    ensures
        r@ == processing_reply(),
{
    let mut fields: Vec<JsonField> = Vec::new();
    push_field(&mut fields, "Info", JsonValue::text(STILL_PROCESSING));
    proof {
        assert(json_fields(fields@) =~= seq![("Info"@, Json::Text(STILL_PROCESSING@))]);
    }
    Reply { status: 408, body: JsonValue::object(fields) }
}

/// The answer when the server failed.
pub fn error_500(message: &str) -> (r: Reply)
    ensures
        r@ == (ReplyView {
            status: 500,
            body: failure_body("error"@, message@, Json::Null, Json::Null),
        }),
{
    Reply { status: 500, body: failure("error", message, JsonValue::Null, JsonValue::Null) }
}

/// Where the answer to a request stands.
#[derive(Debug)]
pub enum ContentStage {
    /// The page is being looked up in the index.
    Finding,
    /// The page is being read.
    Reading,
    /// The wiki is being asked.
    Asking,
    /// The page that the wiki named is being read; the plan is for when it is not
    /// there.
    Rereading(FetchPlan),
    /// It is answered.
    Done,
}

/// The model of where the answer stands.
pub enum StageView {
    Finding,
    Reading,
    Asking,
    Rereading(PlanView),
    Done,
}

impl View for ContentStage {
    type V = StageView;

    open spec fn view(&self) -> StageView {
        match self {
            ContentStage::Finding => StageView::Finding,
            ContentStage::Reading => StageView::Reading,
            ContentStage::Asking => StageView::Asking,
            ContentStage::Rereading(p) => StageView::Rereading(p@),
            ContentStage::Done => StageView::Done,
        }
    }
}

/// What came of the last action.
#[derive(Debug)]
pub enum ContentEvent {
    /// The page that the index has, where it has one.
    Found(Option<u64>),
    /// The answer of the page that was read, where it is there.
    Served(Option<Reply>),
    /// What the wiki says of the page, where it says something.
    Resolved(Option<PageInfo>),
}

/// The model of what came of the last action.
pub enum ContentEventView {
    Found(Option<u64>),
    Served(Option<ReplyView>),
    Resolved(Option<PageView>),
}

impl View for ContentEvent {
    type V = ContentEventView;

    open spec fn view(&self) -> ContentEventView {
        match self {
            ContentEvent::Found(p) => ContentEventView::Found(*p),
            ContentEvent::Served(r) => ContentEventView::Served(opt_reply(*r)),
            ContentEvent::Resolved(i) => ContentEventView::Resolved(
                match *i {
                    Some(x) => Some(x@),
                    None => None,
                },
            ),
        }
    }
}

/// What to do next.
#[derive(Debug)]
pub enum ContentAction {
    /// Look a revision up in the index.
    FindRevId(u64),
    /// Look a title up in the index.
    FindTitle(String),
    /// Read a page.
    ReadPage(u64),
    /// Ask the wiki for the page of a revision.
    AskRevId(u64),
    /// Ask the wiki for a page.
    AskPageId(u64),
    /// Ask the wiki for the page of a title.
    AskTitle(String),
    /// Answer.
    Respond(Reply),
    /// Build the index of revisions anew, and answer.
    RefreshRevIds(Reply),
    /// Build the index of titles anew, and answer.
    RefreshTitles(Reply),
    /// Fetch a history unless it is being fetched, and answer.
    Fetch(FetchPlan, Reply),
}

/// The model of what to do next.
pub enum ContentActionView {
    FindRevId(u64),
    FindTitle(Seq<char>),
    ReadPage(u64),
    AskRevId(u64),
    AskPageId(u64),
    AskTitle(Seq<char>),
    Respond(ReplyView),
    RefreshRevIds(ReplyView),
    RefreshTitles(ReplyView),
    Fetch(PlanView, ReplyView),
}

impl View for ContentAction {
    type V = ContentActionView;

    open spec fn view(&self) -> ContentActionView {
        match self {
            ContentAction::FindRevId(r) => ContentActionView::FindRevId(*r),
            ContentAction::FindTitle(t) => ContentActionView::FindTitle(t@),
            ContentAction::ReadPage(p) => ContentActionView::ReadPage(*p),
            ContentAction::AskRevId(r) => ContentActionView::AskRevId(*r),
            ContentAction::AskPageId(p) => ContentActionView::AskPageId(*p),
            ContentAction::AskTitle(t) => ContentActionView::AskTitle(t@),
            ContentAction::Respond(r) => ContentActionView::Respond(r@),
            ContentAction::RefreshRevIds(r) => ContentActionView::RefreshRevIds(r@),
            ContentAction::RefreshTitles(r) => ContentActionView::RefreshTitles(r@),
            ContentAction::Fetch(p, r) => ContentActionView::Fetch(p@, r@),
        }
    }
}

/// How a request begins: a page that is named is read, any other is looked up.
pub open spec fn content_start(q: RequestView) -> (StageView, ContentActionView) {
    match q {
        RequestView::ByRevId(r) => (StageView::Finding, ContentActionView::FindRevId(r)),
        RequestView::ByPageId(p) => (StageView::Reading, ContentActionView::ReadPage(p)),
        RequestView::ByTitle(t) => (StageView::Finding, ContentActionView::FindTitle(t)),
        RequestView::ByTitleRev(t, _) => (StageView::Finding, ContentActionView::FindTitle(t)),
    }
}

/// What is asked of the wiki.
pub open spec fn content_question(q: RequestView) -> ContentActionView {
    match q {
        RequestView::ByRevId(r) => ContentActionView::AskRevId(r),
        RequestView::ByPageId(p) => ContentActionView::AskPageId(p),
        RequestView::ByTitle(t) => ContentActionView::AskTitle(t),
        RequestView::ByTitleRev(t, _) => ContentActionView::AskTitle(t),
    }
}

/// The history to fetch for a request, by what the wiki says of the page: up to the
/// revision asked for, or to the latest.
pub open spec fn content_plan(q: RequestView, info: PageView) -> PlanView {
    PlanView {
        page_id: match q {
            RequestView::ByPageId(p) => p,
            _ => info.page_id,
        },
        title: stored_title(info.title),
        end_rev_id: match target_of(q) {
            Some(r) => r,
            None => info.last_revid,
        },
    }
}

/// What to do next. What is there is served from there; the wiki is asked for the
/// rest once, and what it cannot answer is said to be processing.
pub open spec fn content_step(q: RequestView, stage: StageView, event: ContentEventView) -> (
    StageView,
    ContentActionView,
) {
    match (stage, event) {
        (StageView::Finding, ContentEventView::Found(Some(p))) => (
            StageView::Reading,
            ContentActionView::ReadPage(p),
        ),
        (StageView::Finding, ContentEventView::Found(None)) => (
            StageView::Asking,
            content_question(q),
        ),
        (StageView::Reading, ContentEventView::Served(Some(r))) => (
            StageView::Done,
            ContentActionView::Respond(r),
        ),
        (StageView::Reading, ContentEventView::Served(None)) => (
            StageView::Asking,
            content_question(q),
        ),
        (StageView::Asking, ContentEventView::Resolved(Some(info))) => {
            let plan = content_plan(q, info);
            if q is ByPageId {
                (StageView::Done, ContentActionView::Fetch(plan, processing_reply()))
            } else {
                (StageView::Rereading(plan), ContentActionView::ReadPage(plan.page_id))
            }
        },
        (StageView::Rereading(_), ContentEventView::Served(Some(r))) => (
            StageView::Done,
            if q is ByRevId {
                ContentActionView::RefreshRevIds(r)
            } else {
                ContentActionView::RefreshTitles(r)
            },
        ),
        (StageView::Rereading(plan), ContentEventView::Served(None)) => (
            StageView::Done,
            ContentActionView::Fetch(plan, processing_reply()),
        ),
        _ => (StageView::Done, ContentActionView::Respond(processing_reply())),
    }
}

/// How a request begins.
pub fn start_content(q: &ContentRequest) -> (r: (ContentStage, ContentAction))
    ensures
        (r.0@, r.1@) == content_start(q@),
{
    match q {
        ContentRequest::ByRevId(r) => (ContentStage::Finding, ContentAction::FindRevId(*r)),
        ContentRequest::ByPageId(p) => (ContentStage::Reading, ContentAction::ReadPage(*p)),
        ContentRequest::ByTitle(t) => (ContentStage::Finding, ContentAction::FindTitle(t.clone())),
        ContentRequest::ByTitleRev(t, _) => (
            ContentStage::Finding,
            ContentAction::FindTitle(t.clone()),
        ),
    }
}

/// What is asked of the wiki.
fn question(q: &ContentRequest) -> (r: ContentAction)
    ensures
        r@ == content_question(q@),
{
    match q {
        ContentRequest::ByRevId(r) => ContentAction::AskRevId(*r),
        ContentRequest::ByPageId(p) => ContentAction::AskPageId(*p),
        ContentRequest::ByTitle(t) => ContentAction::AskTitle(t.clone()),
        ContentRequest::ByTitleRev(t, _) => ContentAction::AskTitle(t.clone()),
    }
}

/// The history to fetch for a request.
fn plan_for(q: &ContentRequest, info: &PageInfo) -> (r: FetchPlan)
    ensures
        r@ == content_plan(q@, info@),
{
    let page_id = match q {
        ContentRequest::ByPageId(p) => *p,
        _ => info.page_id,
    };
    let end_rev_id = match q {
        ContentRequest::ByRevId(r) => *r,
        ContentRequest::ByTitleRev(_, r) => *r,
        _ => info.last_revid,
    };
    FetchPlan { page_id, title: normalize_title(info.title.as_str()), end_rev_id }
}

/// What to do next.
pub fn next_content(q: &ContentRequest, stage: ContentStage, event: ContentEvent) -> (r: (
    ContentStage,
    ContentAction,
))
    ensures
        (r.0@, r.1@) == content_step(q@, stage@, event@),
{
    match (stage, event) {
        (ContentStage::Finding, ContentEvent::Found(Some(p))) => (
            ContentStage::Reading,
            ContentAction::ReadPage(p),
        ),
        (ContentStage::Finding, ContentEvent::Found(None)) => (ContentStage::Asking, question(q)),
        (ContentStage::Reading, ContentEvent::Served(Some(r))) => (
            ContentStage::Done,
            ContentAction::Respond(r),
        ),
        (ContentStage::Reading, ContentEvent::Served(None)) => (ContentStage::Asking, question(q)),
        (ContentStage::Asking, ContentEvent::Resolved(Some(info))) => {
            let plan = plan_for(q, &info);
            if let ContentRequest::ByPageId(_) = q {
                (ContentStage::Done, ContentAction::Fetch(plan, still_processing()))
            } else {
                let page_id = plan.page_id;
                (ContentStage::Rereading(plan), ContentAction::ReadPage(page_id))
            }
        },
        (ContentStage::Rereading(_), ContentEvent::Served(Some(r))) => {
            if let ContentRequest::ByRevId(_) = q {
                (ContentStage::Done, ContentAction::RefreshRevIds(r))
            } else {
                (ContentStage::Done, ContentAction::RefreshTitles(r))
            }
        },
        (ContentStage::Rereading(plan), ContentEvent::Served(None)) => (
            ContentStage::Done,
            ContentAction::Fetch(plan, still_processing()),
        ),
        _ => (ContentStage::Done, ContentAction::Respond(still_processing())),
    }
}

/// How far an answer has come.
pub open spec fn progress_of(stage: StageView) -> int {
    match stage {
        StageView::Finding => 0,
        StageView::Reading => 1,
        StageView::Asking => 2,
        StageView::Rereading(_) => 3,
        StageView::Done => 4,
    }
}

/// Whether an action answers the request.
pub open spec fn is_answer(a: ContentActionView) -> bool {
    a is Respond || a is RefreshRevIds || a is RefreshTitles || a is Fetch
}

/// Every step brings the answer nearer, so that a request is answered after a few;
/// it is done exactly when it is answered.
pub proof fn requests_are_answered(q: RequestView, stage: StageView, event: ContentEventView)
    ensures
        ({
            let (next, action) = content_step(q, stage, event);
            &&& !(stage is Done) ==> progress_of(next) > progress_of(stage)
            &&& next is Done <==> is_answer(action)
        }),
{
}

/// What is there is served without asking the wiki.
pub proof fn stored_pages_are_served(q: RequestView, page_id: u64, reply: ReplyView)
    ensures
        content_step(q, StageView::Finding, ContentEventView::Found(Some(page_id))) == (
            StageView::Reading,
            ContentActionView::ReadPage(page_id),
        ),
        content_step(q, StageView::Reading, ContentEventView::Served(Some(reply))) == (
            StageView::Done,
            ContentActionView::Respond(reply),
        ),
{
}

} // verus!
