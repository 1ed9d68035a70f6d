//! The history of a page, as a wiki hands it out in batches.
use crate::json::{
    array_in, field_in, get_in, is_true, jsons, list_in, opt_json, str_in, text_in, true_in, u64_in,
    unsigned_in, Json, JsonValue,
};
use crate::mwclient::info::or_zero;
use crate::mwclient::{
    push_param, query, query_head, start_query, text_or, text_reply, MwClient, MwError,
    MwErrorView,
};
use crate::pipeline::opt_text;
use crate::text::{concat3, concat_text, decimal, decimal_text};
use vstd::prelude::*;

verus! {

/// A revision as a wiki hands it out.
#[derive(Debug)]
pub struct Revision {
    pub rev_id: u64,
    /// The revision before this one; 0 for the first.
    pub parent_id: u64,
    pub timestamp: String,
    pub sha1: Option<String>,
    pub comment: Option<String>,
    pub minor: bool,
    pub user_id: Option<u64>,
    pub user_name: Option<String>,
    pub text: String,
    /// Whether the text is hidden, missing or suppressed.
    pub text_hidden: bool,
}

/// The model of a revision as a wiki hands it out.
pub struct FetchedView {
    pub rev_id: u64,
    pub parent_id: u64,
    pub timestamp: Seq<char>,
    pub sha1: Option<Seq<char>>,
    pub comment: Option<Seq<char>>,
    pub minor: bool,
    pub user_id: Option<u64>,
    pub user_name: Option<Seq<char>>,
    pub text: Seq<char>,
    pub text_hidden: bool,
}

impl View for Revision {
    type V = FetchedView;

    open spec fn view(&self) -> FetchedView {
        FetchedView {
            rev_id: self.rev_id,
            parent_id: self.parent_id,
            timestamp: self.timestamp@,
            sha1: opt_text(self.sha1),
            comment: opt_text(self.comment),
            minor: self.minor,
            user_id: self.user_id,
            user_name: opt_text(self.user_name),
            text: self.text@,
            text_hidden: self.text_hidden,
        }
    }
}

/// The models of several revisions.
pub open spec fn fetched(v: Seq<Revision>) -> Seq<FetchedView> {
    v.map_values(|r: Revision| r@)
}

/// Whether a value that may be missing says that text is hidden: it is true, a
/// string or `null`.
pub open spec fn says_hidden(v: Option<Json>) -> bool {
    match v {
        Some(Json::Bool(b)) => b,
        Some(Json::Text(_)) => true,
        Some(Json::Null) => true,
        _ => false,
    }
}

/// The main slot of a revision entry.
pub open spec fn main_slot(rev: Json) -> Option<Json> {
    field_in(rev.field("slots"@), "main"@)
}

/// Whether the text of a revision entry is hidden, missing or suppressed.
pub open spec fn hides_text(rev: Json) -> bool {
    ||| says_hidden(field_in(main_slot(rev), "texthidden"@))
    ||| rev.field("textmissing"@) is Some
    ||| rev.field("suppressed"@) is Some
}

/// The text of a revision entry: in its main slot, or in the entry itself.
pub open spec fn entry_text(rev: Json) -> Seq<char> {
    let content = field_in(main_slot(rev), "content"@);
    let slot = if content is Some {
        content
    } else {
        field_in(main_slot(rev), "*"@)
    };
    text_or(text_in(slot), text_or(text_in(rev.field("*"@)), Seq::empty()))
}

/// The revision that an entry describes. What is hidden is left out.
pub open spec fn revision_entry(rev: Json) -> Result<FetchedView, MwErrorView> {
    match unsigned_in(rev.field("revid"@)) {
        None => Err(MwErrorView::Shape("revision missing revid"@)),
        Some(rev_id) => match text_in(rev.field("timestamp"@)) {
            None => Err(
                MwErrorView::Shape(
                    "revision "@ + decimal(rev_id as nat) + " missing timestamp"@,
                ),
            ),
            Some(timestamp) => {
                let user_hidden = rev.field("userhidden"@) is Some;
                let comment_hidden = rev.field("commenthidden"@) is Some || rev.field(
                    "suppressed"@,
                ) is Some;
                Ok(
                    FetchedView {
                        rev_id,
                        parent_id: or_zero(unsigned_in(rev.field("parentid"@))),
                        timestamp,
                        sha1: text_in(rev.field("sha1"@)),
                        comment: if comment_hidden {
                            None
                        } else {
                            text_in(rev.field("comment"@))
                        },
                        minor: is_true(rev.field("minor"@)),
                        user_id: if user_hidden {
                            None
                        } else {
                            unsigned_in(rev.field("userid"@))
                        },
                        user_name: if user_hidden {
                            None
                        } else {
                            text_in(rev.field("user"@))
                        },
                        text: if hides_text(rev) {
                            Seq::empty()
                        } else {
                            entry_text(rev)
                        },
                        text_hidden: hides_text(rev),
                    },
                )
            },
        },
    }
}

/// Whether a value that may be missing says that text is hidden.
fn is_hidden(v: Option<&JsonValue>) -> (r: bool)
    ensures
        r == says_hidden(opt_json(v)),
{
    match v {
        Some(JsonValue::Bool(b)) => *b,
        Some(JsonValue::Text(_)) => true,
        Some(JsonValue::Null) => true,
        _ => false,
    }
}

/// A text that may be missing, copied.
fn owned(v: Option<&str>) -> (r: Option<String>)
    ensures
        match v {
            Some(s) => opt_text(r) == Some(s@),
            None => r is None,
        },
{
    match v {
        Some(s) => Some(s.to_owned()),
        None => None,
    }
}

/// The text of a revision entry.
fn find_text(rev: &JsonValue) -> (r: String)
    ensures
        r@ == entry_text(rev@),
{
    let slot = get_in(rev.get("slots"), "main");
    let content = match get_in(slot, "content") {
        Some(v) => Some(v),
        None => get_in(slot, "*"),
    };
    match str_in(content) {
        Some(s) => s.to_owned(),
        None => match str_in(rev.get("*")) {
            Some(s) => s.to_owned(),
            None => String::new(),
        },
    }
}

/// The revision that an entry describes.
pub fn parse_revision(rev: &JsonValue) -> (r: Result<Revision, MwError>)
    ensures
        match r {
            Ok(v) => revision_entry(rev@) == Ok::<FetchedView, MwErrorView>(v@),
            Err(e) => revision_entry(rev@) == Err::<FetchedView, MwErrorView>(e@),
        },
{
    let rev_id = match u64_in(rev.get("revid")) {
        Some(n) => n,
        None => {
            return Err(MwError::shape("revision missing revid"));
        },
    };
    let parent_id = match u64_in(rev.get("parentid")) {
        Some(n) => n,
        None => 0,
    };
    let timestamp = match str_in(rev.get("timestamp")) {
        Some(s) => s.to_owned(),
        None => {
            return Err(
                MwError::Shape(
                    concat3("revision ", decimal_text(rev_id).as_str(), " missing timestamp"),
                ),
            );
        },
    };
    let slot = get_in(rev.get("slots"), "main");
    let suppressed = rev.get("suppressed").is_some();
    let text_hidden = is_hidden(get_in(slot, "texthidden")) || rev.get("textmissing").is_some()
        || suppressed;
    let text = if text_hidden {
        String::new()
    } else {
        find_text(rev)
    };
    let user_hidden = rev.get("userhidden").is_some();
    let comment_hidden = rev.get("commenthidden").is_some() || suppressed;
    let user_id = if user_hidden {
        None
    } else {
        u64_in(rev.get("userid"))
    };
    let user_name = if user_hidden {
        None
    } else {
        owned(str_in(rev.get("user")))
    };
    let comment = if comment_hidden {
        None
    } else {
        owned(str_in(rev.get("comment")))
    };
    let sha1 = owned(str_in(rev.get("sha1")));
    let minor = true_in(rev.get("minor"));
    Ok(
        Revision {
            rev_id,
            parent_id,
            timestamp,
            sha1,
            comment,
            minor,
            user_id,
            user_name,
            text,
            text_hidden,
        },
    )
}

/// A batch of a history.
#[derive(Debug)]
pub struct Batch {
    pub revisions: Vec<Revision>,
    /// Where the next batch begins.
    pub rvcontinue: Option<String>,
    /// Whether the last revision that was asked for was seen.
    pub saw_end: bool,
}

/// The model of a batch.
pub struct BatchView {
    pub revisions: Seq<FetchedView>,
    pub rvcontinue: Option<Seq<char>>,
    pub saw_end: bool,
}

impl View for Batch {
    type V = BatchView;

    open spec fn view(&self) -> BatchView {
        BatchView {
            revisions: fetched(self.revisions@),
            rvcontinue: opt_text(self.rvcontinue),
            saw_end: self.saw_end,
        }
    }
}

/// Fetches the history of a page up to a revision, batch by batch.
pub struct RevisionFetcher {
    page_id: u64,
    end_rev_id: u64,
    rvcontinue: Option<String>,
    finished: bool,
    saw_end: bool,
    started: bool,
}

/// The model of a fetcher.
pub struct FetcherView {
    pub page_id: u64,
    pub end_rev_id: u64,
    pub rvcontinue: Option<Seq<char>>,
    pub finished: bool,
    pub saw_end: bool,
    pub started: bool,
}

impl View for RevisionFetcher {
    type V = FetcherView;

    closed spec fn view(&self) -> FetcherView {
        FetcherView {
            page_id: self.page_id,
            end_rev_id: self.end_rev_id,
            rvcontinue: opt_text(self.rvcontinue),
            finished: self.finished,
            saw_end: self.saw_end,
            started: self.started,
        }
    }
}

/// A fetcher before its first batch.
pub open spec fn new_fetcher(
    page_id: u64,
    end_rev_id: u64,
    rvcontinue: Option<Seq<char>>,
) -> FetcherView {
    FetcherView {
        page_id,
        end_rev_id,
        rvcontinue,
        finished: false,
        saw_end: false,
        started: false,
    }
}

/// What is asked for the next batch.
pub open spec fn batch_query(f: FetcherView) -> Seq<(Seq<char>, Seq<char>)> {
    let asked = query_head() + seq![
        ("prop"@, "revisions"@),
        ("rvprop"@, "ids|timestamp|user|userid|comment|flags|sha1|content"@),
        ("rvlimit"@, "max"@),
        ("rvdir"@, "newer"@),
        ("rvslots"@, "main"@),
        ("rvendid"@, decimal(f.end_rev_id as nat)),
        ("pageids"@, decimal(f.page_id as nat)),
    ];
    match f.rvcontinue {
        Some(c) => asked.push(("rvcontinue"@, c)),
        None => asked,
    }
}

/// The page entry of an answer.
pub open spec fn page_of(body: Json, page_id: u64) -> Result<Json, MwErrorView> {
    match list_in(field_in(body.field("query"@), "pages"@)) {
        None => Err(MwErrorView::Shape("missing query.pages array (formatversion=2)"@)),
        Some(pages) => if pages.len() == 0 {
            Err(
                MwErrorView::Shape("empty query.pages for page_id="@ + decimal(page_id as nat)),
            )
        } else if is_true(pages[0].field("missing"@)) {
            Err(MwErrorView::PageMissing(page_id))
        } else {
            Ok(pages[0])
        },
    }
}

/// The revisions that the entries from the `k`th on describe, `so_far` before them,
/// and whether `end` is one of those read. The first entry that is none ends the
/// reading.
pub open spec fn read_revisions(
    entries: Seq<Json>,
    k: int,
    end: u64,
    saw: bool,
    so_far: Seq<FetchedView>,
) -> (bool, Result<Seq<FetchedView>, MwErrorView>)
    decreases entries.len() - k,
{
    if k < 0 || k >= entries.len() {
        (saw, Ok(so_far))
    } else {
        match revision_entry(entries[k]) {
            Err(e) => (saw, Err(e)),
            Ok(r) => read_revisions(
                entries,
                k + 1,
                end,
                saw || r.rev_id == end,
                so_far.push(r),
            ),
        }
    }
}

/// What an answer makes of a fetcher, and the batch that it holds. A history that
/// ends before the last revision asked for is an error.
pub open spec fn batch_step(f: FetcherView, body: Json) -> (
    FetcherView,
    Result<BatchView, MwErrorView>,
) {
    let begun = FetcherView { started: true, ..f };
    match page_of(body, f.page_id) {
        Err(e) => (begun, Err(e)),
        Ok(page) => {
            let entries = match list_in(page.field("revisions"@)) {
                Some(v) => v,
                None => Seq::empty(),
            };
            let (saw, read) = read_revisions(entries, 0, f.end_rev_id, f.saw_end, Seq::empty());
            let seen = FetcherView { saw_end: saw, ..begun };
            match read {
                Err(e) => (seen, Err(e)),
                Ok(revisions) => {
                    let next = text_in(field_in(body.field("continue"@), "rvcontinue"@));
                    if next is None && !saw {
                        (
                            seen,
                            Err(MwErrorView::PaginationEndedEarly(f.page_id, f.end_rev_id)),
                        )
                    } else {
                        (
                            FetcherView {
                                rvcontinue: next,
                                finished: f.finished || saw || next is None,
                                ..seen
                            },
                            Ok(BatchView { revisions, rvcontinue: next, saw_end: saw }),
                        )
                    }
                },
            }
        },
    }
}

/// The page entry of an answer.
fn extract_page<'a>(body: &'a JsonValue, page_id: u64) -> (r: Result<&'a JsonValue, MwError>)
    ensures
        match r {
            Ok(p) => page_of(body@, page_id) == Ok::<Json, MwErrorView>(p@),
            Err(e) => page_of(body@, page_id) == Err::<Json, MwErrorView>(e@),
        },
{
    match array_in(get_in(body.get("query"), "pages")) {
        None => Err(MwError::shape("missing query.pages array (formatversion=2)")),
        Some(pages) => if pages.len() == 0 {
            Err(
                MwError::Shape(
                    concat_text("empty query.pages for page_id=", decimal_text(page_id).as_str()),
                ),
            )
        } else {
            let page = &pages[0];
            proof {
                assert(jsons(pages@)[0] == pages@[0]@);
            }
            if true_in(page.get("missing")) {
                Err(MwError::PageMissing { page_id })
            } else {
                Ok(page)
            }
        },
    }
}

impl RevisionFetcher {
    /// A fetcher before its first batch.
    pub fn new(page_id: u64, end_rev_id: u64, rvcontinue: Option<String>) -> (r: Self)
        ensures
            r@ == new_fetcher(page_id, end_rev_id, opt_text(rvcontinue)),
    {
        RevisionFetcher {
            page_id,
            end_rev_id,
            rvcontinue,
            finished: false,
            saw_end: false,
            started: false,
        }
    }

    /// The page.
    pub fn page_id(&self) -> (r: u64)
        ensures
            r == self@.page_id,
    {
        self.page_id
    }

    /// The last revision asked for.
    pub fn end_rev_id(&self) -> (r: u64)
        ensures
            r == self@.end_rev_id,
    {
        self.end_rev_id
    }

    /// Where the next batch begins; nothing at the start and at the end.
    pub fn rvcontinue(&self) -> (r: Option<&str>)
        ensures
            match r {
                Some(s) => self@.rvcontinue == Some(s@),
                None => self@.rvcontinue is None,
            },
    {
        match &self.rvcontinue {
            Some(s) => Some(s.as_str()),
            None => None,
        }
    }

    /// Whether no batch is left.
    pub fn is_finished(&self) -> (r: bool)
        ensures
            r == self@.finished,
    {
        self.finished
    }

    /// Whether to wait before the next batch: before every one but the first.
    pub fn waits(&self) -> (r: bool)
        ensures
            r == self@.started,
    {
        self.started
    }

    /// What is asked for the next batch.
    pub fn params(&self) -> (r: Vec<(String, String)>)
        ensures
            query(r@) == batch_query(self@),
    {
        let mut params = start_query();
        push_param(&mut params, "prop", "revisions");
        push_param(
            &mut params,
            "rvprop",
            "ids|timestamp|user|userid|comment|flags|sha1|content",
        );
        push_param(&mut params, "rvlimit", "max");
        push_param(&mut params, "rvdir", "newer");
        push_param(&mut params, "rvslots", "main");
        push_param(&mut params, "rvendid", decimal_text(self.end_rev_id).as_str());
        push_param(&mut params, "pageids", decimal_text(self.page_id).as_str());
        if let Some(c) = &self.rvcontinue {
            push_param(&mut params, "rvcontinue", c.as_str());
        }
        proof {
            assert(query(params@) =~= batch_query(self@));
        }
        params
    }

    /// Takes the answer to a request for the next batch.
    pub fn next_batch(&mut self, body: &JsonValue) -> (r: Result<Batch, MwError>)
        ensures
            match r {
                Ok(b) => batch_step(old(self)@, body@) == (
                    final(self)@,
                    Ok::<BatchView, MwErrorView>(b@),
                ),
                Err(e) => batch_step(old(self)@, body@) == (
                    final(self)@,
                    Err::<BatchView, MwErrorView>(e@),
                ),
            },
    {
        let ghost f = self@;
        self.started = true;
        let page = match extract_page(body, self.page_id) {
            Ok(p) => p,
            Err(e) => {
                return Err(e);
            },
        };
        let mut revisions: Vec<Revision> = Vec::new();
        let ghost es = match list_in(page@.field("revisions"@)) {
            Some(v) => v,
            None => Seq::empty(),
        };
        let ghost goal = read_revisions(es, 0, f.end_rev_id, f.saw_end, Seq::empty());
        proof {
            assert(fetched(revisions@) =~= Seq::empty());
        }
        if let Some(entries) = array_in(page.get("revisions")) {
            let mut k: usize = 0;
            while k < entries.len()
                invariant
                    k <= entries@.len(),
                    es == jsons(entries@),
                    f == old(self)@,
                    page_of(body@, f.page_id) == Ok::<Json, MwErrorView>(page@),
                    list_in(page@.field("revisions"@)) == Some(es),
                    goal == read_revisions(es, 0, f.end_rev_id, f.saw_end, Seq::empty()),
                    self@ == (FetcherView { started: true, saw_end: self@.saw_end, ..f }),
                    read_revisions(
                        es,
                        k as int,
                        f.end_rev_id,
                        self@.saw_end,
                        fetched(revisions@),
                    ) == goal,
                decreases entries@.len() - k,
            {
                proof {
                    assert(es[k as int] == entries@[k as int]@);
                }
                let ghost before = fetched(revisions@);
                match parse_revision(&entries[k]) {
                    Ok(r) => {
                        if r.rev_id == self.end_rev_id {
                            self.saw_end = true;
                        }
                        revisions.push(r);
                        proof {
                            assert(fetched(revisions@) =~= before.push(r@));
                        }
                    },
                    Err(e) => {
                        return Err(e);
                    },
                }
                k = k + 1;
            }
        }
        let next = owned(str_in(get_in(body.get("continue"), "rvcontinue")));
        let last = next.is_none();
        if last && !self.saw_end {
            return Err(
                MwError::PaginationEndedEarly {
                    page_id: self.page_id,
                    end_rev_id: self.end_rev_id,
                },
            );
        }
        self.rvcontinue = next.clone();
        if last || self.saw_end {
            self.finished = true;
        }
        Ok(Batch { revisions, rvcontinue: next, saw_end: self.saw_end })
    }
}

impl MwClient {
    /// Fetches the history of a page up to a revision.
    pub fn fetch_revisions(&self, page_id: u64, end_rev_id: u64) -> (r: RevisionFetcher)
        ensures
            r@ == new_fetcher(page_id, end_rev_id, None),
    {
        RevisionFetcher::new(page_id, end_rev_id, None)
    }

    /// Fetches the rest of a history, from where a batch left off.
    pub fn fetch_revisions_from(
        &self,
        page_id: u64,
        end_rev_id: u64,
        rvcontinue: &str,
    ) -> (r: RevisionFetcher)
        ensures
            r@ == new_fetcher(page_id, end_rev_id, Some(rvcontinue@)),
    {
        RevisionFetcher::new(page_id, end_rev_id, Some(rvcontinue.to_owned()))
    }
}

/// A fetcher has no batch left once it has seen the last revision asked for, and
/// only then.
pub open spec fn fetcher_ok(f: FetcherView) -> bool {
    f.finished ==> f.saw_end
}

/// A history that was fetched to its end holds the last revision asked for.
pub proof fn history_reaches_end(f: FetcherView, body: Json)
    requires
        fetcher_ok(f),
        !f.finished,
    ensures
        fetcher_ok(batch_step(f, body).0),
        batch_step(f, body).1 is Ok ==> batch_step(f, body).0.finished
            == batch_step(f, body).1->Ok_0.saw_end,
{
}

/// What is asked for the source of a revision.
pub open spec fn source_query(rev_id: u64) -> Seq<(Seq<char>, Seq<char>)> {
    query_head() + seq![
        ("prop"@, "revisions"@),
        ("rvprop"@, "content"@),
        ("rvslots"@, "main"@),
        ("revids"@, decimal(rev_id as nat)),
    ]
}

/// What is asked for the source of a revision.
pub fn source_params(rev_id: u64) -> (r: Vec<(String, String)>)
    ensures
        query(r@) == source_query(rev_id),
{
    let mut params = start_query();
    push_param(&mut params, "prop", "revisions");
    push_param(&mut params, "rvprop", "content");
    push_param(&mut params, "rvslots", "main");
    push_param(&mut params, "revids", decimal_text(rev_id).as_str());
    proof {
        assert(query(params@) =~= source_query(rev_id));
    }
    params
}

/// The first value of a list, if there is one.
pub open spec fn first_of(v: Option<Json>) -> Option<Json> {
    match list_in(v) {
        Some(l) => if l.len() > 0 {
            Some(l[0])
        } else {
            None
        },
        None => None,
    }
}

/// The source in an answer: that of the first revision of the first page.
pub open spec fn source_in(body: Json) -> Option<Seq<char>> {
    let page = first_of(field_in(body.field("query"@), "pages"@));
    let revision = first_of(field_in(page, "revisions"@));
    text_in(field_in(field_in(field_in(revision, "slots"@), "main"@), "content"@))
}

fn first_in(v: Option<&JsonValue>) -> (r: Option<&JsonValue>)
    ensures
        opt_json(r) == first_of(opt_json(v)),
{
    match array_in(v) {
        Some(l) => if l.len() > 0 {
            proof {
                assert(jsons(l@)[0] == l@[0]@);
            }
            Some(&l[0])
        } else {
            None
        },
        None => None,
    }
}

/// The source in an answer. Where there is none the revision is missing.
pub fn parse_source(body: &JsonValue) -> (r: Result<String, MwError>)
    ensures
        text_reply(r) == (match source_in(body@) {
            Some(s) => Ok::<Seq<char>, MwErrorView>(s),
            None => Err::<Seq<char>, MwErrorView>(MwErrorView::PageMissing(0)),
        }),
{
    let page = first_in(get_in(body.get("query"), "pages"));
    let revision = first_in(get_in(page, "revisions"));
    match str_in(get_in(get_in(get_in(revision, "slots"), "main"), "content")) {
        Some(s) => Ok(s.to_owned()),
        None => Err(MwError::PageMissing { page_id: 0 }),
    }
}

} // verus!
