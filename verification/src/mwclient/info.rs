//! What a wiki says of a page.
use crate::json::{
    array_in, field_in, get_in, is_true, jsons, list_in, str_in, text_in, true_in, u64_in,
    unsigned_in, Json, JsonValue,
};
use crate::mwclient::{
    push_param, query, query_head, start_query, MwError, MwErrorView,
};
use crate::text::decimal;
use crate::text::decimal_text;
use vstd::prelude::*;

verus! {

/// What a wiki says of a page.
#[derive(Debug)]
pub struct PageInfo {
    /// The title as the wiki writes it.
    pub title: String,
    pub page_id: u64,
    pub last_revid: u64,
}

/// The model of what a wiki says of a page.
pub struct PageView {
    pub title: Seq<char>,
    pub page_id: u64,
    pub last_revid: u64,
}

impl View for PageInfo {
    type V = PageView;

    open spec fn view(&self) -> PageView {
        PageView { title: self.title@, page_id: self.page_id, last_revid: self.last_revid }
    }
}

/// A number, or 0 where it is missing.
pub open spec fn or_zero(v: Option<u64>) -> u64 {
    match v {
        Some(n) => n,
        None => 0,
    }
}

/// What a page entry says.
pub open spec fn page_entry(page: Json) -> Result<PageView, MwErrorView> {
    let id = unsigned_in(page.field("pageid"@));
    if is_true(page.field("missing"@)) || page.field("invalid"@) is Some {
        Err(MwErrorView::PageMissing(or_zero(id)))
    } else {
        match text_in(page.field("title"@)) {
            None => Err(MwErrorView::Shape("page missing title"@)),
            Some(title) => match id {
                None => Err(MwErrorView::Shape("page missing pageid"@)),
                Some(page_id) => match unsigned_in(page.field("lastrevid"@)) {
                    None => Err(MwErrorView::Shape("page missing lastrevid"@)),
                    Some(last_revid) => Ok(PageView { title, page_id, last_revid }),
                },
            },
        }
    }
}

/// What an answer says of the first page in it. An answer that names bad revisions
/// in place of pages says that the page is missing.
pub open spec fn page_info(body: Json) -> Result<PageView, MwErrorView> {
    let asked = body.field("query"@);
    match list_in(field_in(asked, "pages"@)) {
        None => if field_in(asked, "badrevids"@) is Some {
            Err(MwErrorView::PageMissing(0))
        } else {
            Err(MwErrorView::Shape("missing query.pages array"@))
        },
        Some(pages) => if pages.len() == 0 {
            Err(MwErrorView::Shape("empty query.pages"@))
        } else {
            page_entry(pages[0])
        },
    }
}

/// What a page entry says.
fn parse_page_entry(page: &JsonValue) -> (r: Result<PageInfo, MwError>)
    ensures
        match r {
            Ok(p) => page_entry(page@) == Ok::<PageView, MwErrorView>(p@),
            Err(e) => page_entry(page@) == Err::<PageView, MwErrorView>(e@),
        },
{
    let id = u64_in(page.get("pageid"));
    if true_in(page.get("missing")) || page.get("invalid").is_some() {
        let page_id = match id {
            Some(n) => n,
            None => 0,
        };
        return Err(MwError::PageMissing { page_id });
    }
    let title = match str_in(page.get("title")) {
        Some(s) => s.to_owned(),
        None => {
            return Err(MwError::shape("page missing title"));
        },
    };
    let page_id = match id {
        Some(n) => n,
        None => {
            return Err(MwError::shape("page missing pageid"));
        },
    };
    match u64_in(page.get("lastrevid")) {
        Some(last_revid) => Ok(PageInfo { title, page_id, last_revid }),
        None => Err(MwError::shape("page missing lastrevid")),
    }
}

/// What an answer says of the first page in it.
pub fn parse_page_info(body: &JsonValue) -> (r: Result<PageInfo, MwError>)
    ensures
        match r {
            Ok(p) => page_info(body@) == Ok::<PageView, MwErrorView>(p@),
            Err(e) => page_info(body@) == Err::<PageView, MwErrorView>(e@),
        },
{
    let asked = body.get("query");
    match array_in(get_in(asked, "pages")) {
        None => if get_in(asked, "badrevids").is_some() {
            Err(MwError::PageMissing { page_id: 0 })
        } else {
            Err(MwError::shape("missing query.pages array"))
        },
        Some(pages) => if pages.len() == 0 {
            Err(MwError::shape("empty query.pages"))
        } else {
            proof {
                assert(jsons(pages@)[0] == pages@[0]@);
            }
            parse_page_entry(&pages[0])
        },
    }
}

/// What is asked to learn of a page.
pub open spec fn info_query(name: Seq<char>, value: Seq<char>) -> Seq<(Seq<char>, Seq<char>)> {
    query_head() + seq![("prop"@, "info"@), ("inprop"@, "lastrevid"@), (name, value)]
}

fn info_params(name: &str, value: &str) -> (r: Vec<(String, String)>)
    ensures
        query(r@) == info_query(name@, value@),
{
    let mut params = start_query();
    push_param(&mut params, "prop", "info");
    push_param(&mut params, "inprop", "lastrevid");
    push_param(&mut params, name, value);
    proof {
        assert(query(params@) =~= info_query(name@, value@));
    }
    params
}

/// What is asked to find a page by its title.
pub fn title_params(title: &str) -> (r: Vec<(String, String)>)
    ensures
        query(r@) == info_query("titles"@, title@),
{
    info_params("titles", title)
}

/// What is asked to find a page by its id.
pub fn page_id_params(page_id: u64) -> (r: Vec<(String, String)>)
    ensures
        query(r@) == info_query("pageids"@, decimal(page_id as nat)),
{
    info_params("pageids", decimal_text(page_id).as_str())
}

/// What is asked to find a page by one of its revisions.
pub fn rev_id_params(rev_id: u64) -> (r: Vec<(String, String)>)
    ensures
        query(r@) == info_query("revids"@, decimal(rev_id as nat)),
{
    info_params("revids", decimal_text(rev_id).as_str())
}

} // verus!
