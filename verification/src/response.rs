//! The bodies of content responses: the tokens of one revision, or of a range.
use crate::json::{field_at, json_fields, jsons, list_in, push_field, Json, JsonField, JsonValue};
use crate::structures::{
    ids_below, iter_rev_tokens, revision_tokens, Article, ArticleView, RevId, TokenId,
};
use crate::text::{concat_text, decimal, decimal_text};
use vstd::prelude::*;

verus! {

broadcast use vstd::std_specs::hash::group_hash_axioms;

/// Which fields a token carries beside its text.
#[derive(Debug, Clone, Copy, PartialEq, Eq, Structural)]
pub struct ResponseParameters {
    pub o_rev_id: bool,
    pub editor: bool,
    pub token_id: bool,
    pub inbound: bool,
    pub outbound: bool,
}

impl ResponseParameters {
    /// Every field.
    pub fn all() -> (r: Self)
        ensures
            r == (ResponseParameters {
                o_rev_id: true,
                editor: true,
                token_id: true,
                inbound: true,
                outbound: true,
            }),
    {
        ResponseParameters {
            o_rev_id: true,
            editor: true,
            token_id: true,
            inbound: true,
            outbound: true,
        }
    }

    /// The text alone.
    pub fn none() -> (r: Self)
        ensures
            r == (ResponseParameters {
                o_rev_id: false,
                editor: false,
                token_id: false,
                inbound: false,
                outbound: false,
            }),
    {
        ResponseParameters {
            o_rev_id: false,
            editor: false,
            token_id: false,
            inbound: false,
            outbound: false,
        }
    }
}

impl Default for ResponseParameters {
    fn default() -> (r: Self)
        ensures
            r == (ResponseParameters {
                o_rev_id: false,
                editor: false,
                token_id: false,
                inbound: false,
                outbound: false,
            }),
    {
        ResponseParameters::none()
    }
}

/// The body of a response that succeeded.
#[derive(Debug)]
pub struct RevContentResponse {
    pub article_title: String,
    pub page_id: u64,
    pub success: bool,
    pub message: Option<String>,
    /// One object per revision; its only field is named by the revision's id.
    pub revisions: Vec<JsonValue>,
}

/// The model of a response that succeeded.
pub struct ContentView {
    pub article_title: Seq<char>,
    pub page_id: u64,
    pub success: bool,
    pub message: Option<Seq<char>>,
    pub revisions: Seq<Json>,
}

impl View for RevContentResponse {
    type V = ContentView;

    open spec fn view(&self) -> ContentView {
        ContentView {
            article_title: self.article_title@,
            page_id: self.page_id,
            success: self.success,
            message: match self.message {
                Some(m) => Some(m@),
                None => None,
            },
            revisions: jsons(self.revisions@),
        }
    }
}

/// Why a response could not be built.
#[derive(Debug)]
pub struct RevContentError {
    pub error: String,
}

impl View for RevContentError {
    type V = Seq<char>;

    open spec fn view(&self) -> Seq<char> {
        self.error@
    }
}

/// A list of revision ids as JSON.
pub open spec fn numbers_json(ids: Seq<u64>) -> Json {
    Json::List(Seq::new(ids.len(), |i: int| Json::Number(ids[i] as int)))
}

/// The editor of a revision; nothing where the revision is not stored.
pub open spec fn editor_at(a: ArticleView, rev_id: u64) -> Seq<char> {
    if a.revisions.contains_key(rev_id) {
        a.revisions[rev_id].editor
    } else {
        Seq::empty()
    }
}

/// A field where it is asked for.
pub open spec fn field_if(wanted: bool, name: Seq<char>, value: Json) -> Seq<(Seq<char>, Json)> {
    if wanted {
        seq![(name, value)]
    } else {
        Seq::empty()
    }
}

/// A token as an object.
pub open spec fn token_json(a: ArticleView, id: usize, p: ResponseParameters) -> Json {
    let w = a.tokens[id as int];
    Json::Fields(
        seq![("str"@, Json::Text(w.value))] + field_if(
            p.o_rev_id,
            "o_rev_id"@,
            Json::Number(w.origin_rev_id as int),
        ) + field_if(p.editor, "editor"@, Json::Text(editor_at(a, w.origin_rev_id))) + field_if(
            p.token_id,
            "token_id"@,
            Json::Number(w.token_id as int),
        ) + field_if(p.inbound, "in"@, numbers_json(w.inbound)) + field_if(
            p.outbound,
            "out"@,
            numbers_json(w.outbound),
        ),
    )
}

/// A revision as an object: its id names its editor, its time and its tokens.
pub open spec fn revision_json(a: ArticleView, rev_id: u64, p: ResponseParameters) -> Json {
    let r = a.revisions[rev_id];
    let ids = revision_tokens(a, r);
    let inner = Json::Fields(
        seq![
            ("editor"@, Json::Text(r.editor)),
            ("time"@, Json::Text(r.timestamp)),
            ("tokens"@, Json::List(Seq::new(ids.len(), |i: int| token_json(a, ids[i], p)))),
        ],
    );
    Json::Fields(seq![(decimal(rev_id as nat), inner)])
}

/// Several revisions as objects.
pub open spec fn revisions_json(a: ArticleView, ids: Seq<u64>, p: ResponseParameters) -> Seq<Json> {
    Seq::new(ids.len(), |i: int| revision_json(a, ids[i], p))
}

/// The first place of `x` in `s` from `k` on; the length of `s` where there is none.
pub open spec fn place_of(s: Seq<u64>, x: u64, k: int) -> int
    decreases s.len() - k,
{
    if k < 0 || k >= s.len() {
        s.len() as int
    } else if s[k] == x {
        k
    } else {
        place_of(s, x, k + 1)
    }
}

/// What is said of a revision that is not stored.
pub open spec fn unknown_revision(rev_id: u64) -> Seq<char> {
    "Revision ID ("@ + decimal(rev_id as nat) + ") does not exist or is spam or deleted!"@
}

/// The first of the ids, from `k` on, that is not stored.
pub open spec fn first_unknown(a: ArticleView, ids: Seq<u64>, k: int) -> Option<u64>
    decreases ids.len() - k,
{
    if k < 0 || k >= ids.len() {
        None
    } else if !a.revisions.contains_key(ids[k]) {
        Some(ids[k])
    } else {
        first_unknown(a, ids, k + 1)
    }
}

/// The revisions that a request for `ids` asks for: the one, or those from the
/// first up to but without the second, in the order of the history. `Err` is what
/// is said of a request that cannot be met.
pub open spec fn requested(a: ArticleView, ids: Seq<u64>) -> Result<Seq<u64>, Seq<char>> {
    let order = a.ordered_revisions;
    if ids.len() == 0 || ids.len() > 2 {
        Err("Expected 1 or 2 revision ids, got "@ + decimal(ids.len()))
    } else if first_unknown(a, ids, 0) is Some {
        Err(unknown_revision(first_unknown(a, ids, 0)->0))
    } else if ids.len() == 1 {
        Ok(ids)
    } else {
        let start = place_of(order, ids[0], 0);
        let end = place_of(order, ids[1], 0);
        if start >= order.len() {
            Err(unknown_revision(ids[0]))
        } else if end >= order.len() {
            Err(unknown_revision(ids[1]))
        } else {
            Ok(order.subrange(start, end))
        }
    }
}

/// The two ids name revisions of the history, the second before the first.
pub open spec fn is_reversed(a: ArticleView, ids: Seq<u64>) -> bool {
    ids.len() == 2 && place_of(a.ordered_revisions, ids[1], 0) < place_of(
        a.ordered_revisions,
        ids[0],
        0,
    ) < a.ordered_revisions.len()
}

/// The response to a request for `ids`.
pub open spec fn rev_content(a: ArticleView, ids: Seq<u64>, p: ResponseParameters) -> Result<
    ContentView,
    Seq<char>,
> {
    match requested(a, ids) {
        Ok(revs) => Ok(
            ContentView {
                article_title: a.title,
                page_id: match a.page_id {
                    Some(id) => id,
                    None => 0,
                },
                success: true,
                message: None,
                revisions: revisions_json(a, revs, p),
            },
        ),
        Err(e) => Err(e),
    }
}

/// A list of revision ids as JSON.
pub(crate) fn numbers(ids: &Vec<RevId>) -> (r: JsonValue)
    ensures
        r@ == numbers_json(ids@),
{
    let mut items: Vec<JsonValue> = Vec::new();
    let mut k: usize = 0;
    while k < ids.len()
        invariant
            k <= ids@.len(),
            items@.len() == k,
            forall|i: int| 0 <= i < k ==> (#[trigger] items@[i])@ == Json::Number(ids@[i] as int),
        decreases ids@.len() - k,
    {
        items.push(JsonValue::Unsigned(ids[k] as u128));
        k = k + 1;
    }
    proof {
        assert(jsons(items@) =~= Seq::new(ids@.len(), |i: int| Json::Number(ids@[i] as int)));
    }
    JsonValue::array(items)
}

/// A token as an object.
pub fn build_token_entry(
    article: &Article,
    token_id: TokenId,
    params: ResponseParameters,
) -> (r: JsonValue)
    requires
        token_id < article@.tokens.len(),
    ensures
        r@ == token_json(article@, token_id, params),
{
    let ghost a = article@;
    let w = article.word(token_id);
    let mut fields: Vec<JsonField> = Vec::new();
    let ghost mut all: Seq<(Seq<char>, Json)> = seq![("str"@, Json::Text(w@.value))];
    push_field(&mut fields, "str", JsonValue::text(w.value.as_str()));
    proof {
        assert(json_fields(fields@) =~= all);
    }
    if params.o_rev_id {
        push_field(&mut fields, "o_rev_id", JsonValue::Unsigned(w.origin_rev_id as u128));
    }
    proof {
        all = all + field_if(params.o_rev_id, "o_rev_id"@, Json::Number(w@.origin_rev_id as int));
        assert(json_fields(fields@) =~= all);
    }
    if params.editor {
        let editor = match article.revisions.get(&w.origin_rev_id) {
            Some(r) => r.editor.clone(),
            None => String::new(),
        };
        push_field(&mut fields, "editor", JsonValue::Text(editor));
    }
    proof {
        all = all + field_if(params.editor, "editor"@, Json::Text(editor_at(a, w@.origin_rev_id)));
        assert(json_fields(fields@) =~= all);
    }
    if params.token_id {
        push_field(&mut fields, "token_id", JsonValue::Unsigned(w.token_id as u128));
    }
    proof {
        all = all + field_if(params.token_id, "token_id"@, Json::Number(w@.token_id as int));
        assert(json_fields(fields@) =~= all);
    }
    if params.inbound {
        push_field(&mut fields, "in", numbers(&w.inbound));
    }
    proof {
        all = all + field_if(params.inbound, "in"@, numbers_json(w@.inbound));
        assert(json_fields(fields@) =~= all);
    }
    if params.outbound {
        push_field(&mut fields, "out", numbers(&w.outbound));
    }
    proof {
        all = all + field_if(params.outbound, "out"@, numbers_json(w@.outbound));
        assert(json_fields(fields@) =~= all);
    }
    JsonValue::object(fields)
}

/// A stored revision as an object.
pub fn build_revision_entry(
    article: &Article,
    rev_id: RevId,
    params: ResponseParameters,
) -> (r: JsonValue)
    requires
        article@.wf(),
        article@.revisions.contains_key(rev_id),
    ensures
        r@ == revision_json(article@, rev_id, params),
{
    let ghost a = article@;
    match article.revisions.get(&rev_id) {
        Some(revision) => {
            let ids = iter_rev_tokens(article, revision);
            let mut tokens: Vec<JsonValue> = Vec::new();
            let mut k: usize = 0;
            while k < ids.len()
                invariant
                    k <= ids@.len(),
                    tokens@.len() == k,
                    ids_below(ids@, article@.tokens.len() as int),
                    forall|i: int|
                        0 <= i < k ==> (#[trigger] tokens@[i])@ == token_json(
                            article@,
                            ids@[i],
                            params,
                        ),
                decreases ids@.len() - k,
            {
                tokens.push(build_token_entry(article, ids[k], params));
                k = k + 1;
            }
            proof {
                assert(jsons(tokens@) =~= Seq::new(
                    ids@.len(),
                    |i: int| token_json(a, ids@[i], params),
                ));
            }
            let mut inner: Vec<JsonField> = Vec::new();
            push_field(&mut inner, "editor", JsonValue::text(revision.editor.as_str()));
            push_field(&mut inner, "time", JsonValue::text(revision.timestamp.as_str()));
            push_field(&mut inner, "tokens", JsonValue::array(tokens));
            let mut outer: Vec<JsonField> = Vec::new();
            let id = decimal_text(rev_id);
            let ghost inner_fields = json_fields(inner@);
            push_field(&mut outer, id.as_str(), JsonValue::object(inner));
            proof {
                assert(inner_fields =~= seq![
                    ("editor"@, Json::Text(revision@.editor)),
                    ("time"@, Json::Text(revision@.timestamp)),
                    (
                        "tokens"@,
                        Json::List(Seq::new(ids@.len(), |i: int| token_json(a, ids@[i], params))),
                    ),
                ]);
                assert(json_fields(outer@) =~= seq![(id@, Json::Fields(inner_fields))]);
            }
            JsonValue::object(outer)
        },
        None => JsonValue::Null,
    }
}

/// Says that a revision is not stored.
fn unknown(rev_id: RevId) -> (r: RevContentError)
    ensures
        r@ == unknown_revision(rev_id),
{
    let head = concat_text("Revision ID (", decimal_text(rev_id).as_str());
    RevContentError {
        error: concat_text(head.as_str(), ") does not exist or is spam or deleted!"),
    }
}

/// The first place of `x` in `s`.
fn find_place(s: &Vec<RevId>, x: RevId) -> (r: usize)
    ensures
        r == place_of(s@, x, 0),
        r <= s@.len(),
{
    let mut k: usize = 0;
    while k < s.len()
        invariant
            k <= s@.len(),
            place_of(s@, x, k as int) == place_of(s@, x, 0),
        decreases s@.len() - k,
    {
        if s[k] == x {
            return k;
        }
        k = k + 1;
    }
    k
}

/// Whether a request asks for a range backwards.
pub fn asks_backwards(article: &Article, revision_ids: &[RevId]) -> (r: bool)
    ensures
        r == is_reversed(article@, revision_ids@),
{
    if revision_ids.len() != 2 {
        return false;
    }
    let start = find_place(&article.ordered_revisions, revision_ids[0]);
    let end = find_place(&article.ordered_revisions, revision_ids[1]);
    end < start && start < article.ordered_revisions.len()
}

/// The revisions that a request for `revision_ids` asks for.
fn requested_ids(article: &Article, revision_ids: &[RevId]) -> (r: Result<
    Vec<RevId>,
    RevContentError,
>)
    requires
        !is_reversed(article@, revision_ids@),
    ensures
        match r {
            Ok(ids) => requested(article@, revision_ids@) == Ok::<Seq<u64>, Seq<char>>(ids@),
            Err(e) => requested(article@, revision_ids@) == Err::<Seq<u64>, Seq<char>>(e@),
        },
{
    let n: usize = revision_ids.len();
    if n == 0 || n > 2 {
        return Err(
            RevContentError {
                error: concat_text(
                    "Expected 1 or 2 revision ids, got ",
                    decimal_text(n as u64).as_str(),
                ),
            },
        );
    }
    let mut k: usize = 0;
    while k < revision_ids.len()
        invariant
            n == revision_ids@.len(),
            0 < n <= 2,
            k <= n,
            first_unknown(article@, revision_ids@, k as int) == first_unknown(
                article@,
                revision_ids@,
                0,
            ),
        decreases n - k,
    {
        let id = revision_ids[k];
        if !article.revisions.contains_key(&id) {
            return Err(unknown(id));
        }
        k = k + 1;
    }
    let mut out: Vec<RevId> = Vec::new();
    if n == 1 {
        out.push(revision_ids[0]);
        proof {
            assert(out@ =~= revision_ids@);
        }
        return Ok(out);
    }
    let start = find_place(&article.ordered_revisions, revision_ids[0]);
    if start >= article.ordered_revisions.len() {
        return Err(unknown(revision_ids[0]));
    }
    let end = find_place(&article.ordered_revisions, revision_ids[1]);
    if end >= article.ordered_revisions.len() {
        return Err(unknown(revision_ids[1]));
    }
    let ghost order = article.ordered_revisions@;
    let mut i: usize = start;
    while i < end
        invariant
            order == article.ordered_revisions@,
            start <= i <= end < order.len(),
            out@ == order.subrange(start as int, i as int),
        decreases end - i,
    {
        out.push(article.ordered_revisions[i]);
        proof {
            assert(out@ =~= order.subrange(start as int, i + 1));
        }
        i = i + 1;
    }
    Ok(out)
}

/// Every revision that a request asks for is stored.
proof fn lemma_requested_stored(a: ArticleView, ids: Seq<u64>)
    requires
        a.wf(),
        requested(a, ids) is Ok,
        !is_reversed(a, ids),
    ensures
        forall|i: int|
            0 <= i < requested(a, ids)->Ok_0.len() ==> a.revisions.contains_key(
                #[trigger] requested(a, ids)->Ok_0[i],
            ),
{
    if ids.len() == 1 {
        assert(first_unknown(a, ids, 0) is None);
    } else {
        let start = place_of(a.ordered_revisions, ids[0], 0);
        let end = place_of(a.ordered_revisions, ids[1], 0);
        lemma_place(a.ordered_revisions, ids[0], 0);
        lemma_place(a.ordered_revisions, ids[1], 0);
        assert forall|i: int| 0 <= i < end - start implies a.revisions.contains_key(
            #[trigger] requested(a, ids)->Ok_0[i],
        ) by {
            assert(requested(a, ids)->Ok_0[i] == a.ordered_revisions[start + i]);
        }
    }
}

proof fn lemma_place(s: Seq<u64>, x: u64, k: int)
    requires
        0 <= k <= s.len(),
    ensures
        k <= place_of(s, x, k) <= s.len(),
        place_of(s, x, k) < s.len() ==> s[place_of(s, x, k)] == x,
        forall|i: int| k <= i < place_of(s, x, k) ==> s[i] != x,
    decreases s.len() - k,
{
    if k < s.len() && s[k] != x {
        lemma_place(s, x, k + 1);
    }
}

/// Builds the response to a request for one revision, or for the revisions from
/// the first id up to but without the second.
pub fn build_rev_content(
    article: &Article,
    revision_ids: &[RevId],
    params: ResponseParameters,
) -> (r: Result<RevContentResponse, RevContentError>)
    requires
        article@.wf(),
        !is_reversed(article@, revision_ids@),
    ensures
        match r {
            Ok(c) => rev_content(article@, revision_ids@, params) == Ok::<ContentView, Seq<char>>(
                c@,
            ),
            Err(e) => rev_content(article@, revision_ids@, params) == Err::<ContentView, Seq<char>>(
                e@,
            ),
        },
{
    let ids = match requested_ids(article, revision_ids) {
        Ok(ids) => ids,
        Err(e) => {
            return Err(e);
        },
    };
    proof {
        lemma_requested_stored(article@, revision_ids@);
    }
    let mut revisions: Vec<JsonValue> = Vec::new();
    let mut k: usize = 0;
    while k < ids.len()
        invariant
            k <= ids@.len(),
            article@.wf(),
            forall|i: int| 0 <= i < ids@.len() ==> article@.revisions.contains_key(#[trigger] ids@[i]),
            revisions@.len() == k,
            forall|i: int|
                0 <= i < k ==> (#[trigger] revisions@[i])@ == revision_json(article@, ids@[i], params),
        decreases ids@.len() - k,
    {
        revisions.push(build_revision_entry(article, ids[k], params));
        k = k + 1;
    }
    proof {
        assert(jsons(revisions@) =~= revisions_json(article@, ids@, params));
    }
    Ok(
        RevContentResponse {
            article_title: article.title.clone(),
            page_id: match article.page_id {
                Some(id) => id,
                None => 0,
            },
            success: true,
            message: None,
            revisions,
        },
    )
}

/// The fields of a response that succeeded.
pub open spec fn content_fields(c: ContentView) -> Seq<(Seq<char>, Json)> {
    seq![
        ("article_title"@, Json::Text(c.article_title)),
        ("page_id"@, Json::Number(c.page_id as int)),
        ("success"@, Json::Bool(c.success)),
        (
            "message"@,
            match c.message {
                Some(m) => Json::Text(m),
                None => Json::Null,
            },
        ),
        ("revisions"@, Json::List(c.revisions)),
    ]
}

impl RevContentResponse {
    /// The response as an object.
    pub fn to_json(self) -> (r: JsonValue)
        ensures
            r@ == Json::Fields(content_fields(self@)),
    {
        let ghost me = self@;
        let mut fields: Vec<JsonField> = Vec::new();
        push_field(&mut fields, "article_title", JsonValue::Text(self.article_title));
        push_field(&mut fields, "page_id", JsonValue::Unsigned(self.page_id as u128));
        push_field(&mut fields, "success", JsonValue::Bool(self.success));
        let message = match self.message {
            Some(m) => JsonValue::Text(m),
            None => JsonValue::Null,
        };
        push_field(&mut fields, "message", message);
        push_field(&mut fields, "revisions", JsonValue::array(self.revisions));
        proof {
            assert(json_fields(fields@) =~= content_fields(me));
        }
        JsonValue::object(fields)
    }
}

impl RevContentError {
    /// The error as an object.
    pub fn to_json(self) -> (r: JsonValue)
        ensures
            r@ == Json::Fields(seq![("Error"@, Json::Text(self@))]),
    {
        let ghost me = self@;
        let mut fields: Vec<JsonField> = Vec::new();
        push_field(&mut fields, "Error", JsonValue::Text(self.error));
        proof {
            assert(json_fields(fields@) =~= seq![("Error"@, Json::Text(me))]);
        }
        JsonValue::object(fields)
    }
}

/// A range holds the revision it starts at, unless it is empty, and not the one
/// that it ends at.
pub proof fn range_is_half_open(a: ArticleView, start: u64, end: u64)
    requires
        a.wf(),
        requested(a, seq![start, end]) is Ok,
        !is_reversed(a, seq![start, end]),
    ensures
        ({
            let revs = requested(a, seq![start, end])->Ok_0;
            &&& start != end ==> revs.len() > 0 && revs[0] == start
            &&& start == end ==> revs.len() == 0
            &&& !revs.contains(end)
            &&& forall|i: int| 0 <= i < revs.len() ==> a.revisions.contains_key(#[trigger] revs[i])
        }),
{
    let ids = seq![start, end];
    lemma_requested_stored(a, ids);
    lemma_place(a.ordered_revisions, start, 0);
    lemma_place(a.ordered_revisions, end, 0);
}

/// Where a field of another name comes first, what comes after it decides.
proof fn lemma_field_after(x: Seq<(Seq<char>, Json)>, y: Seq<(Seq<char>, Json)>, name: Seq<char>, k: int)
    requires
        0 <= k <= x.len(),
        forall|i: int| 0 <= i < x.len() ==> (#[trigger] x[i]).0 != name,
    ensures
        field_at(x + y, name, k) == x.len() + field_at(y, name, 0),
    decreases x.len() - k,
{
    if k < x.len() {
        assert((x + y)[k] == x[k]);
        lemma_field_after(x, y, name, k + 1);
    } else {
        lemma_field_shift(x, y, name, 0);
    }
}

proof fn lemma_field_shift(x: Seq<(Seq<char>, Json)>, y: Seq<(Seq<char>, Json)>, name: Seq<char>, k: int)
    requires
        0 <= k <= y.len(),
    ensures
        field_at(x + y, name, x.len() + k) == x.len() + field_at(y, name, k),
    decreases y.len() - k,
{
    if k < y.len() {
        assert((x + y)[x.len() + k] == y[k]);
        lemma_field_shift(x, y, name, k + 1);
    }
}

/// A field that may be asked for is found where it is, and does not hide those after
/// it.
proof fn lemma_field_if(
    wanted: bool,
    name: Seq<char>,
    value: Json,
    rest: Seq<(Seq<char>, Json)>,
    sought: Seq<char>,
)
    ensures
        ({
            let all = field_if(wanted, name, value) + rest;
            Json::Fields(all).field(sought) == if wanted && name == sought {
                Some(value)
            } else {
                Json::Fields(rest).field(sought)
            }
        }),
{
    let here = field_if(wanted, name, value);
    if wanted && name == sought {
        assert((here + rest)[0] == (name, value));
    } else {
        lemma_field_after(here, rest, sought, 0);
        let k = field_at(rest, sought, 0);
        lemma_field_within(rest, sought, 0);
        if k < rest.len() {
            assert((here + rest)[here.len() + k] == rest[k]);
        }
    }
}

proof fn lemma_field_within(fields: Seq<(Seq<char>, Json)>, name: Seq<char>, k: int)
    requires
        0 <= k <= fields.len(),
    ensures
        k <= field_at(fields, name, k) <= fields.len(),
        field_at(fields, name, k) < fields.len() ==> fields[field_at(fields, name, k)].0 == name,
    decreases fields.len() - k,
{
    if k < fields.len() && fields[k].0 != name {
        lemma_field_within(fields, name, k + 1);
    }
}

/// The names of the fields of a token.
proof fn lemma_field_names()
    ensures
        "str"@ != "o_rev_id"@,
        "str"@ != "editor"@,
        "str"@ != "token_id"@,
        "str"@ != "in"@,
        "str"@ != "out"@,
        "o_rev_id"@ != "editor"@,
        "o_rev_id"@ != "token_id"@,
        "o_rev_id"@ != "in"@,
        "o_rev_id"@ != "out"@,
        "editor"@ != "token_id"@,
        "editor"@ != "in"@,
        "editor"@ != "out"@,
        "token_id"@ != "in"@,
        "token_id"@ != "out"@,
        "in"@ != "out"@,
{
    reveal_strlit("str");
    reveal_strlit("o_rev_id");
    reveal_strlit("editor");
    reveal_strlit("token_id");
    reveal_strlit("in");
    reveal_strlit("out");
    assert("str"@.len() == 3 && "o_rev_id"@.len() == 8 && "editor"@.len() == 6);
    assert("token_id"@.len() == 8 && "in"@.len() == 2 && "out"@.len() == 3);
    assert("str"@[0] == 's' && "out"@[0] == 'o');
    assert("o_rev_id"@[0] == 'o' && "token_id"@[0] == 't');
}

/// What a served token says under each name: its text always, and what it is asked for
/// besides: the revision that wrote it and who made that, its id, the revisions that put
/// it back under `in`, and those that removed it under `out`. What is not asked for is
/// not said.
pub proof fn served_fields(a: ArticleView, id: usize, p: ResponseParameters)
    ensures
        ({
            let w = a.tokens[id as int];
            let t = token_json(a, id, p);
            &&& t.field("str"@) == Some(Json::Text(w.value))
            &&& t.field("o_rev_id"@) == if p.o_rev_id {
                Some(Json::Number(w.origin_rev_id as int))
            } else {
                None
            }
            &&& t.field("editor"@) == if p.editor {
                Some(Json::Text(editor_at(a, w.origin_rev_id)))
            } else {
                None
            }
            &&& t.field("token_id"@) == if p.token_id {
                Some(Json::Number(w.token_id as int))
            } else {
                None
            }
            &&& t.field("in"@) == if p.inbound {
                Some(numbers_json(w.inbound))
            } else {
                None
            }
            &&& t.field("out"@) == if p.outbound {
                Some(numbers_json(w.outbound))
            } else {
                None
            }
        }),
{
    lemma_field_names();
    assert forall|name: Seq<char>| true implies #[trigger] token_json(a, id, p).field(name)
        == found_field(a, id, p, name) by {
        lemma_token_field(a, id, p, name);
    }
}

/// The value that stands under a name in a token.
spec fn found_field(a: ArticleView, id: usize, p: ResponseParameters, name: Seq<char>) -> Option<
    Json,
> {
    let w = a.tokens[id as int];
    if name == "str"@ {
        Some(Json::Text(w.value))
    } else if p.o_rev_id && name == "o_rev_id"@ {
        Some(Json::Number(w.origin_rev_id as int))
    } else if p.editor && name == "editor"@ {
        Some(Json::Text(editor_at(a, w.origin_rev_id)))
    } else if p.token_id && name == "token_id"@ {
        Some(Json::Number(w.token_id as int))
    } else if p.inbound && name == "in"@ {
        Some(numbers_json(w.inbound))
    } else if p.outbound && name == "out"@ {
        Some(numbers_json(w.outbound))
    } else {
        None
    }
}

proof fn lemma_token_field(a: ArticleView, id: usize, p: ResponseParameters, name: Seq<char>)
    ensures
        token_json(a, id, p).field(name) == found_field(a, id, p, name),
{
    let w = a.tokens[id as int];
    let none = Seq::<(Seq<char>, Json)>::empty();
    let f6 = field_if(p.outbound, "out"@, numbers_json(w.outbound));
    let f5 = field_if(p.inbound, "in"@, numbers_json(w.inbound));
    let f4 = field_if(p.token_id, "token_id"@, Json::Number(w.token_id as int));
    let f3 = field_if(p.editor, "editor"@, Json::Text(editor_at(a, w.origin_rev_id)));
    let f2 = field_if(p.o_rev_id, "o_rev_id"@, Json::Number(w.origin_rev_id as int));
    let f1 = field_if(true, "str"@, Json::Text(w.value));
    lemma_field_if(p.outbound, "out"@, numbers_json(w.outbound), none, name);
    lemma_field_if(p.inbound, "in"@, numbers_json(w.inbound), f6 + none, name);
    lemma_field_if(
        p.token_id,
        "token_id"@,
        Json::Number(w.token_id as int),
        f5 + (f6 + none),
        name,
    );
    lemma_field_if(
        p.editor,
        "editor"@,
        Json::Text(editor_at(a, w.origin_rev_id)),
        f4 + (f5 + (f6 + none)),
        name,
    );
    lemma_field_if(
        p.o_rev_id,
        "o_rev_id"@,
        Json::Number(w.origin_rev_id as int),
        f3 + (f4 + (f5 + (f6 + none))),
        name,
    );
    lemma_field_if(
        true,
        "str"@,
        Json::Text(w.value),
        f2 + (f3 + (f4 + (f5 + (f6 + none)))),
        name,
    );
    let all = f1 + (f2 + (f3 + (f4 + (f5 + (f6 + none)))));
    assert(Json::Fields(none).field(name) is None);
    assert(token_json(a, id, p)->Fields_0 =~= all);
}

/// A response holds the revisions asked for, one object for each in the order of the
/// history, and in it its editor, its time, and its tokens in the order of the text.
pub proof fn served_revisions_hold_their_tokens(
    a: ArticleView,
    ids: Seq<u64>,
    p: ResponseParameters,
    k: int,
)
    requires
        requested(a, ids) is Ok,
        0 <= k < requested(a, ids)->Ok_0.len(),
    ensures
        ({
            let rev = requested(a, ids)->Ok_0[k];
            let c = rev_content(a, ids, p);
            let tokens = revision_tokens(a, a.revisions[rev]);
            &&& c is Ok
            &&& c->Ok_0.success
            &&& c->Ok_0.article_title == a.title
            &&& c->Ok_0.revisions.len() == requested(a, ids)->Ok_0.len()
            &&& c->Ok_0.revisions[k].field(decimal(rev as nat)) is Some
            &&& ({
                let r = c->Ok_0.revisions[k].field(decimal(rev as nat))->0;
                let l = list_in(r.field("tokens"@));
                &&& r.field("editor"@) == Some(Json::Text(a.revisions[rev].editor))
                &&& r.field("time"@) == Some(Json::Text(a.revisions[rev].timestamp))
                &&& l is Some
                &&& l->0.len() == tokens.len()
                &&& forall|i: int|
                    0 <= i < tokens.len() ==> (#[trigger] l->0[i]).field("str"@) == Some(
                        Json::Text(a.tokens[tokens[i] as int].value),
                    ) && l->0[i] == token_json(a, tokens[i], p)
            })
        }),
{
    let rev = requested(a, ids)->Ok_0[k];
    let c = rev_content(a, ids, p)->Ok_0;
    let tokens = revision_tokens(a, a.revisions[rev]);
    reveal_strlit("editor");
    reveal_strlit("time");
    reveal_strlit("tokens");
    assert("editor"@.len() == 6 && "time"@.len() == 4 && "tokens"@.len() == 6);
    assert("editor"@[0] == 'e' && "tokens"@[0] == 't');
    let object = c.revisions[k];
    assert(object == revision_json(a, rev, p));
    let inner = object->Fields_0[0].1;
    assert(field_at(object->Fields_0, decimal(rev as nat), 0) == 0);
    let fields = inner->Fields_0;
    assert(field_at(fields, "editor"@, 0) == 0);
    assert(field_at(fields, "time"@, 1) == 1);
    assert(field_at(fields, "time"@, 0) == 1);
    assert(field_at(fields, "tokens"@, 2) == 2);
    assert(field_at(fields, "tokens"@, 1) == 2);
    assert(field_at(fields, "tokens"@, 0) == 2);
    let l = list_in(inner.field("tokens"@))->0;
    assert forall|i: int| 0 <= i < tokens.len() implies (#[trigger] l[i]).field("str"@) == Some(
        Json::Text(a.tokens[tokens[i] as int].value),
    ) && l[i] == token_json(a, tokens[i], p) by {
        served_fields(a, tokens[i], p);
    }
}

} // verus!
