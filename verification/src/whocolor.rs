//! The colouring data of a revision: who wrote each of its tokens, how contested it
//! is and how old.
use crate::response::editor_at;
use crate::structures::{
    ids_below, iter_rev_tokens, revision_tokens, Article, ArticleView, RevId, WordView,
};
use crate::text::{chars_of, concat_text, decimal, decimal_text, same_text};
use vstd::prelude::*;

verus! {

broadcast use vstd::std_specs::hash::group_hash_axioms;

/// The seconds of a day.
pub const DAY_SECONDS: i64 = 86400;

/// A token of the revision.
#[derive(Debug)]
pub struct WhoColorToken {
    /// The text, lowercased.
    pub str: String,
    /// The revision that introduced the token.
    pub o_rev_id: RevId,
    /// The revisions that brought the token back after a deletion.
    pub inbound: Vec<RevId>,
    /// The revisions that deleted the token.
    pub outbound: Vec<RevId>,
    /// The editor of the revision that introduced the token.
    pub editor: String,
    /// How often one editor undid another's work on the token.
    pub conflict_score: u128,
    /// The seconds since the revision that introduced the token.
    pub age_seconds: i128,
}

/// The model of a token of the revision.
pub struct ColorTokenView {
    pub str: Seq<char>,
    pub o_rev_id: u64,
    pub inbound: Seq<u64>,
    pub outbound: Seq<u64>,
    pub editor: Seq<char>,
    pub conflict_score: int,
    pub age_seconds: int,
}

impl View for WhoColorToken {
    type V = ColorTokenView;

    open spec fn view(&self) -> ColorTokenView {
        ColorTokenView {
            str: self.str@,
            o_rev_id: self.o_rev_id,
            inbound: self.inbound@,
            outbound: self.outbound@,
            editor: self.editor@,
            conflict_score: self.conflict_score as int,
            age_seconds: self.age_seconds as int,
        }
    }
}

/// A revision of the history.
#[derive(Debug)]
pub struct WhoColorRevision {
    pub timestamp: String,
    /// The stored revision before this one; 0 for the first.
    pub parent_rev_id: RevId,
    pub editor: String,
}

/// The model of a revision of the history.
pub struct ColorRevisionView {
    pub timestamp: Seq<char>,
    pub parent_rev_id: u64,
    pub editor: Seq<char>,
}

impl View for WhoColorRevision {
    type V = ColorRevisionView;

    open spec fn view(&self) -> ColorRevisionView {
        ColorRevisionView {
            timestamp: self.timestamp@,
            parent_rev_id: self.parent_rev_id,
            editor: self.editor@,
        }
    }
}

/// The colouring data of a revision.
#[derive(Debug)]
pub struct WhoColorData {
    /// The tokens of the revision in order.
    pub tokens: Vec<WhoColorToken>,
    /// The stored revisions in order, with their ids.
    pub revisions: Vec<(RevId, WhoColorRevision)>,
    /// The largest conflict score of a token.
    pub biggest_conflict_score: u128,
}

/// The model of the colouring data.
pub struct ColorDataView {
    pub tokens: Seq<ColorTokenView>,
    pub revisions: Seq<(u64, ColorRevisionView)>,
    pub biggest_conflict_score: int,
}

/// The models of several tokens.
pub open spec fn color_tokens(v: Seq<WhoColorToken>) -> Seq<ColorTokenView> {
    v.map_values(|t: WhoColorToken| t@)
}

/// The models of several revisions.
pub open spec fn color_revisions(v: Seq<(RevId, WhoColorRevision)>) -> Seq<
    (u64, ColorRevisionView),
> {
    v.map_values(|r: (RevId, WhoColorRevision)| (r.0, r.1@))
}

impl View for WhoColorData {
    type V = ColorDataView;

    open spec fn view(&self) -> ColorDataView {
        ColorDataView {
            tokens: color_tokens(self.tokens@),
            revisions: color_revisions(self.revisions@),
            biggest_conflict_score: self.biggest_conflict_score as int,
        }
    }
}

/// Why there is no colouring data.
#[derive(Debug, Clone, Copy, PartialEq, Eq, Structural)]
pub enum WhoColorError {
    /// The revision is not stored: it is spam, deleted or not known.
    UnknownRevision(RevId),
    /// The revision that introduced a token is not stored.
    OrphanOriginRevision(RevId),
}

impl WhoColorError {
    /// What the error says.
    pub open spec fn said(self) -> Seq<char> {
        match self {
            WhoColorError::UnknownRevision(id) => "revision "@ + decimal(id as nat)
                + " is not present in article (deleted or spam)"@,
            WhoColorError::OrphanOriginRevision(id) => "token's origin revision "@ + decimal(
                id as nat,
            ) + " is missing from article.revisions"@,
        }
    }

    /// What the error says.
    pub fn message(&self) -> (r: String)
        ensures
            r@ == self.said(),
    {
        match self {
            WhoColorError::UnknownRevision(id) => {
                let head = concat_text("revision ", decimal_text(*id).as_str());
                concat_text(head.as_str(), " is not present in article (deleted or spam)")
            },
            WhoColorError::OrphanOriginRevision(id) => {
                let head = concat_text("token's origin revision ", decimal_text(*id).as_str());
                concat_text(head.as_str(), " is missing from article.revisions")
            },
        }
    }
}

/// The number that the digits `s[from..to]` write; nothing where one of them is no
/// digit.
pub open spec fn digits_value(s: Seq<char>, from: int, to: int) -> Option<int>
    decreases to - from,
{
    if from >= to {
        Some(0)
    } else {
        match digits_value(s, from, to - 1) {
            Some(v) => if '0' <= s[to - 1] <= '9' {
                Some(v * 10 + (s[to - 1] as int - '0' as int))
            } else {
                None
            },
            None => None,
        }
    }
}

/// The days from 1970-01-01 to a date of the Gregorian calendar, a year counted
/// from March.
pub open spec fn civil_days(y: int, m: int, d: int) -> int {
    let year = if m <= 2 {
        y - 1
    } else {
        y
    };
    let month = if m > 2 {
        m - 3
    } else {
        m + 9
    };
    365 * year + year / 4 - year / 100 + year / 400 + (153 * month + 2) / 5 + d - 1 - 719468
}

/// The seconds from the start of 1970 to the time that `s` writes as
/// `YYYY-MM-DDTHH:MM:SS` and at least one more character; nothing where it writes
/// none.
pub open spec fn unix_seconds(s: Seq<char>) -> Option<int> {
    if s.len() < 20 || s[4] != '-' || s[7] != '-' || s[10] != 'T' || s[13] != ':' || s[16] != ':' {
        None
    } else {
        match (
            digits_value(s, 0, 4),
            digits_value(s, 5, 7),
            digits_value(s, 8, 10),
            digits_value(s, 11, 13),
            digits_value(s, 14, 16),
            digits_value(s, 17, 19),
        ) {
            (Some(y), Some(m), Some(d), Some(h), Some(min), Some(sec)) => Some(
                civil_days(y, m, d) * 86400 + h * 3600 + min * 60 + sec,
            ),
            _ => None,
        }
    }
}

/// The number of a stretch of at most four digits.
fn read_digits(s: &Vec<char>, from: usize, to: usize) -> (r: Option<i64>)
    requires
        from <= to <= s@.len(),
        to - from <= 4,
    ensures
        match r {
            Some(v) => digits_value(s@, from as int, to as int) == Some(v as int) && 0 <= v
                && (to - from <= 2 ==> v <= 99) && v <= 9999,
            None => digits_value(s@, from as int, to as int) is None,
        },
{
    let mut v: i64 = 0;
    let mut i: usize = from;
    let mut bad: bool = false;
    while i < to
        invariant
            from <= i <= to <= s@.len(),
            to - from <= 4,
            digits_value(s@, from as int, i as int) == (if bad {
                None::<int>
            } else {
                Some(v as int)
            }),
            0 <= v,
            i - from == 0 ==> v == 0,
            i - from <= 1 ==> v <= 9,
            i - from <= 2 ==> v <= 99,
            i - from <= 3 ==> v <= 999,
            v <= 9999,
        decreases to - i,
    {
        let c = s[i];
        if '0' <= c && c <= '9' {
            if !bad {
                v = v * 10 + (c as u32 - '0' as u32) as i64;
            }
        } else {
            bad = true;
        }
        i = i + 1;
    }
    if bad {
        None
    } else {
        Some(v)
    }
}

/// The days from 1970-01-01 to a date.
pub(crate) fn days_from_civil(y: i32, m: u32, d: u32) -> (r: i32)
    requires
        -1000000 <= y <= 1000000,
        m <= 1000,
        d <= 1000,
    ensures
        r == civil_days(y as int, m as int, d as int),
{
    let year: i32 = if m <= 2 {
        y - 1
    } else {
        y
    };
    let era: i32 = if year >= 0 {
        year / 400
    } else {
        -((399 - year) / 400)
    };
    let yoe: i32 = year - era * 400;
    let month: i32 = if m > 2 {
        m as i32 - 3
    } else {
        m as i32 + 9
    };
    let doy: i32 = (153 * month + 2) / 5 + d as i32 - 1;
    let doe: i32 = yoe * 365 + yoe / 4 - yoe / 100 + doy;
    proof {
        let q = era as int;
        assert(year as int == q * 400 + yoe);
        assert(0 <= yoe < 400);
        assert(year as int / 400 == q);
        assert(year as int / 4 == 100 * q + yoe as int / 4);
        assert(year as int / 100 == 4 * q + yoe as int / 100);
    }
    era * 146097 + doe - 719468
}

/// The seconds from the start of 1970 to a time written as
/// `YYYY-MM-DDTHH:MM:SSZ`.
pub fn parse_mw_timestamp(s: &str) -> (r: Option<i64>)
    ensures
        match r {
            Some(v) => unix_seconds(s@) == Some(v as int),
            None => unix_seconds(s@) is None,
        },
{
    let c = chars_of(s);
    if c.len() < 20 {
        return None;
    }
    if c[4] != '-' || c[7] != '-' || c[10] != 'T' || c[13] != ':' || c[16] != ':' {
        return None;
    }
    let year = read_digits(&c, 0, 4);
    let month = read_digits(&c, 5, 7);
    let day = read_digits(&c, 8, 10);
    let hour = read_digits(&c, 11, 13);
    let min = read_digits(&c, 14, 16);
    let sec = read_digits(&c, 17, 19);
    match (year, month, day, hour, min, sec) {
        (Some(y), Some(m), Some(d), Some(h), Some(n), Some(t)) => {
            let days = days_from_civil(y as i32, m as u32, d as u32);
            proof {
                assert(-1000000 <= days <= 4000000);
            }
            Some(days as i64 * DAY_SECONDS + h * 3600 + n * 60 + t)
        },
        _ => None,
    }
}

/// The conflicts at the `i`th deletion: it undid what another editor brought back
/// before it, and what it deleted another editor brought back after it.
pub open spec fn conflict_at(a: ArticleView, inbound: Seq<u64>, outbound: Seq<u64>, i: int) -> int {
    let back = if i <= inbound.len() {
        i
    } else {
        inbound.len() as int
    };
    let editor = editor_at(a, outbound[i]);
    (if back > 0 && editor_at(a, inbound[back - 1]) != editor {
        1int
    } else {
        0
    }) + (if i < inbound.len() && editor_at(a, inbound[i]) != editor {
        1int
    } else {
        0
    })
}

/// The conflicts at the first `k` deletions.
pub open spec fn conflicts(
    a: ArticleView,
    inbound: Seq<u64>,
    outbound: Seq<u64>,
    k: int,
) -> int
    decreases k,
{
    if k <= 0 {
        0
    } else {
        conflicts(a, inbound, outbound, k - 1) + conflict_at(a, inbound, outbound, k - 1)
    }
}

/// The conflict score of a token.
pub open spec fn conflict_score(a: ArticleView, inbound: Seq<u64>, outbound: Seq<u64>) -> int {
    conflicts(a, inbound, outbound, outbound.len() as int)
}

/// The editor of a revision.
fn editor_text(article: &Article, rev_id: RevId) -> (r: String)
    ensures
        r@ == editor_at(article@, rev_id),
{
    match article.revisions.get(&rev_id) {
        Some(r) => r.editor.clone(),
        None => String::new(),
    }
}

/// How often one editor undid another's work on a token, by the revisions that
/// brought it back and that deleted it.
pub fn compute_conflict_score(article: &Article, inbound: &[RevId], outbound: &[RevId]) -> (r: u128)
    ensures
        r == conflict_score(article@, inbound@, outbound@),
{
    let ghost a = article@;
    let mut score: u128 = 0;
    let mut editor_in_prev: Option<String> = None;
    let mut i: usize = 0;
    while i < outbound.len()
        invariant
            a == article@,
            i <= outbound@.len(),
            score == conflicts(a, inbound@, outbound@, i as int),
            score <= 2 * i,
            match editor_in_prev {
                Some(e) => {
                    let back = if i <= inbound@.len() {
                        i as int
                    } else {
                        inbound@.len() as int
                    };
                    back > 0 && e@ == editor_at(a, inbound@[back - 1])
                },
                None => i == 0 || inbound@.len() == 0,
            },
        decreases outbound@.len() - i,
    {
        let editor_out = editor_text(article, outbound[i]);
        if let Some(prev) = &editor_in_prev {
            if !same_text(prev.as_str(), editor_out.as_str()) {
                score = score + 1;
            }
        }
        if i < inbound.len() {
            let editor_in = editor_text(article, inbound[i]);
            if !same_text(editor_out.as_str(), editor_in.as_str()) {
                score = score + 1;
            }
            editor_in_prev = Some(editor_in);
        }
        i = i + 1;
    }
    score
}

/// The colouring data of a token.
pub open spec fn color_token(a: ArticleView, w: WordView, now: int) -> ColorTokenView {
    ColorTokenView {
        str: w.value,
        o_rev_id: w.origin_rev_id,
        inbound: w.inbound,
        outbound: w.outbound,
        editor: a.revisions[w.origin_rev_id].editor,
        conflict_score: conflict_score(a, w.inbound, w.outbound),
        age_seconds: match unix_seconds(a.revisions[w.origin_rev_id].timestamp) {
            Some(t) => now - t,
            None => 0,
        },
    }
}

/// The colouring data of the tokens `ids`.
pub open spec fn colored(a: ArticleView, ids: Seq<usize>, now: int) -> Seq<ColorTokenView> {
    Seq::new(ids.len(), |i: int| color_token(a, a.tokens[ids[i] as int], now))
}

/// The first revision, from the `k`th token on, that introduced a token and is not
/// stored.
pub open spec fn first_orphan(a: ArticleView, ids: Seq<usize>, k: int) -> Option<u64>
    decreases ids.len() - k,
{
    if k < 0 || k >= ids.len() {
        None
    } else if !a.revisions.contains_key(a.tokens[ids[k] as int].origin_rev_id) {
        Some(a.tokens[ids[k] as int].origin_rev_id)
    } else {
        first_orphan(a, ids, k + 1)
    }
}

/// The largest conflict score of the first `k` tokens; 0 where there is none.
pub open spec fn biggest_score(ts: Seq<ColorTokenView>, k: int) -> int
    decreases k,
{
    if k <= 0 {
        0
    } else {
        let rest = biggest_score(ts, k - 1);
        if ts[k - 1].conflict_score > rest {
            ts[k - 1].conflict_score
        } else {
            rest
        }
    }
}

/// The `i`th stored revision: its parent is the stored revision before it.
pub open spec fn color_revision(a: ArticleView, i: int) -> (u64, ColorRevisionView) {
    let id = a.ordered_revisions[i];
    (
        id,
        ColorRevisionView {
            timestamp: a.revisions[id].timestamp,
            parent_rev_id: if i == 0 {
                0
            } else {
                a.ordered_revisions[i - 1]
            },
            editor: a.revisions[id].editor,
        },
    )
}

/// The colouring data of a revision at the time `now`.
pub open spec fn whocolor(a: ArticleView, rev_id: u64, now: int) -> Result<
    ColorDataView,
    WhoColorError,
> {
    if !a.revisions.contains_key(rev_id) {
        Err(WhoColorError::UnknownRevision(rev_id))
    } else {
        let ids = revision_tokens(a, a.revisions[rev_id]);
        match first_orphan(a, ids, 0) {
            Some(id) => Err(WhoColorError::OrphanOriginRevision(id)),
            None => Ok(
                ColorDataView {
                    tokens: colored(a, ids, now),
                    revisions: Seq::new(a.ordered_revisions.len(), |i: int| color_revision(a, i)),
                    biggest_conflict_score: biggest_score(
                        colored(a, ids, now),
                        ids.len() as int,
                    ),
                },
            ),
        }
    }
}

/// A list of revision ids, copied.
fn copy_revs(v: &Vec<RevId>) -> (r: Vec<RevId>)
    ensures
        r@ == v@,
{
    let mut out: Vec<RevId> = Vec::new();
    let mut i: usize = 0;
    while i < v.len()
        invariant
            i <= v@.len(),
            out@ == v@.take(i as int),
        decreases v@.len() - i,
    {
        out.push(v[i]);
        proof {
            assert(out@ =~= v@.take(i + 1));
        }
        i = i + 1;
    }
    proof {
        assert(v@.take(v@.len() as int) =~= v@);
    }
    out
}

/// The stored revisions in order.
fn revision_list(article: &Article) -> (r: Vec<(RevId, WhoColorRevision)>)
    requires
        article@.wf(),
    ensures
        color_revisions(r@) == Seq::new(
            article@.ordered_revisions.len(),
            |i: int| color_revision(article@, i),
        ),
{
    let ghost a = article@;
    let mut out: Vec<(RevId, WhoColorRevision)> = Vec::new();
    let mut i: usize = 0;
    while i < article.ordered_revisions.len()
        invariant
            a == article@,
            a.wf(),
            i <= a.ordered_revisions.len(),
            out@.len() == i,
            forall|k: int|
                0 <= k < i ==> ((#[trigger] out@[k]).0, out@[k].1@) == color_revision(a, k),
        decreases a.ordered_revisions.len() - i,
    {
        let id = article.ordered_revisions[i];
        let parent: RevId = if i == 0 {
            0
        } else {
            article.ordered_revisions[i - 1]
        };
        proof {
            assert(a.revisions.contains_key(a.ordered_revisions[i as int]));
        }
        if let Some(r) = article.revisions.get(&id) {
            out.push(
                (
                    id,
                    WhoColorRevision {
                        timestamp: r.timestamp.clone(),
                        parent_rev_id: parent,
                        editor: r.editor.clone(),
                    },
                ),
            );
        }
        i = i + 1;
    }
    proof {
        assert(color_revisions(out@) =~= Seq::new(
            a.ordered_revisions.len(),
            |i: int| color_revision(a, i),
        ));
    }
    out
}

/// The colouring data of the revision `rev_id` at the time `now_unix_seconds`. A
/// token whose time of origin cannot be read has age 0.
pub fn get_whocolor_data(article: &Article, rev_id: RevId, now_unix_seconds: i64) -> (r: Result<
    WhoColorData,
    WhoColorError,
>)
    requires
        article@.wf(),
    ensures
        match r {
            Ok(d) => whocolor(article@, rev_id, now_unix_seconds as int) == Ok::<
                ColorDataView,
                WhoColorError,
            >(d@),
            Err(e) => whocolor(article@, rev_id, now_unix_seconds as int) == Err::<
                ColorDataView,
                WhoColorError,
            >(e),
        },
{
    let ghost a = article@;
    let ghost now = now_unix_seconds as int;
    let revision = match article.revisions.get(&rev_id) {
        Some(r) => r,
        None => {
            return Err(WhoColorError::UnknownRevision(rev_id));
        },
    };
    let ids = iter_rev_tokens(article, revision);
    let ghost all = colored(a, ids@, now);
    let mut tokens: Vec<WhoColorToken> = Vec::new();
    let mut biggest: u128 = 0;
    let mut k: usize = 0;
    while k < ids.len()
        invariant
            a == article@,
            a.wf(),
            a.revisions.contains_key(rev_id),
            now == now_unix_seconds,
            ids@ == revision_tokens(a, a.revisions[rev_id]),
            ids_below(ids@, a.tokens.len() as int),
            all == colored(a, ids@, now),
            k <= ids@.len(),
            tokens@.len() == k,
            forall|i: int| 0 <= i < k ==> (#[trigger] tokens@[i])@ == all[i],
            biggest == biggest_score(all, k as int),
            first_orphan(a, ids@, k as int) == first_orphan(a, ids@, 0),
        decreases ids@.len() - k,
    {
        let word = article.word(ids[k]);
        let origin = match article.revisions.get(&word.origin_rev_id) {
            Some(r) => r,
            None => {
                return Err(WhoColorError::OrphanOriginRevision(word.origin_rev_id));
            },
        };
        let age: i128 = match parse_mw_timestamp(origin.timestamp.as_str()) {
            Some(t) => now_unix_seconds as i128 - t as i128,
            None => 0,
        };
        let score = compute_conflict_score(
            article,
            word.inbound.as_slice(),
            word.outbound.as_slice(),
        );
        if score > biggest {
            biggest = score;
        }
        tokens.push(
            WhoColorToken {
                str: word.value.clone(),
                o_rev_id: word.origin_rev_id,
                inbound: copy_revs(&word.inbound),
                outbound: copy_revs(&word.outbound),
                editor: origin.editor.clone(),
                conflict_score: score,
                age_seconds: age,
            },
        );
        k = k + 1;
    }
    let revisions = revision_list(article);
    proof {
        assert(color_tokens(tokens@) =~= all);
    }
    Ok(WhoColorData { tokens, revisions, biggest_conflict_score: biggest })
}

/// Whether a year has a 29th of February.
pub open spec fn is_leap(y: int) -> bool {
    y % 4 == 0 && (y % 100 != 0 || y % 400 == 0)
}

/// The days of a month.
pub open spec fn month_days(y: int, m: int) -> int {
    if m == 2 {
        if is_leap(y) {
            29
        } else {
            28
        }
    } else if m == 4 || m == 6 || m == 9 || m == 11 {
        30
    } else {
        31
    }
}

/// A date of the calendar.
pub open spec fn is_date(y: int, m: int, d: int) -> bool {
    1 <= m <= 12 && 1 <= d <= month_days(y, m)
}

/// The date after a date.
pub open spec fn next_date(y: int, m: int, d: int) -> (int, int, int) {
    if d < month_days(y, m) {
        (y, m, d + 1)
    } else if m < 12 {
        (y, m + 1, 1)
    } else {
        (y + 1, 1, 1)
    }
}

/// A year has a 29th of February exactly where one more leap day comes before its end
/// than before the end of the year before.
proof fn lemma_leap_days(y: int)
    ensures
        y / 4 - y / 100 + y / 400 - ((y - 1) / 4 - (y - 1) / 100 + (y - 1) / 400) == (if is_leap(y) {
            1int
        } else {
            0
        }),
{
    assert(y / 4 - (y - 1) / 4 == (if y % 4 == 0 {
        1int
    } else {
        0
    }));
    assert(y / 100 - (y - 1) / 100 == (if y % 100 == 0 {
        1int
    } else {
        0
    }));
    assert(y / 400 - (y - 1) / 400 == (if y % 400 == 0 {
        1int
    } else {
        0
    }));
    assert(y % 100 == 0 ==> y % 4 == 0);
    assert(y % 400 == 0 ==> y % 100 == 0);
}

/// The first of a month comes as many days after the first of the month before as that
/// has.
proof fn lemma_month_days(y: int, m: int)
    requires
        1 <= m <= 12,
    ensures
        m < 12 ==> civil_days(y, m + 1, 1) == civil_days(y, m, 1) + month_days(y, m),
        m == 12 ==> civil_days(y + 1, 1, 1) == civil_days(y, m, 1) + 31,
{
    if m == 2 {
        lemma_leap_days(y);
    }
    assert((153 * 0 + 2) / 5 == 0int && (153 * 1 + 2) / 5 == 31int && (153 * 2 + 2) / 5 == 61int
        && (153 * 3 + 2) / 5 == 92int && (153 * 4 + 2) / 5 == 122int && (153 * 5 + 2) / 5 == 153int
        && (153 * 6 + 2) / 5 == 184int && (153 * 7 + 2) / 5 == 214int && (153 * 8 + 2) / 5 == 245int
        && (153 * 9 + 2) / 5 == 275int && (153 * 10 + 2) / 5 == 306int && (153 * 11 + 2) / 5
        == 337int);
}

/// Days count from the start of 1970, and each date is one day after the date
/// before it.
pub proof fn days_count_up(y: int, m: int, d: int)
    requires
        is_date(y, m, d),
    ensures
        civil_days(1970, 1, 1) == 0,
        ({
            let n = next_date(y, m, d);
            is_date(n.0, n.1, n.2) && civil_days(n.0, n.1, n.2) == civil_days(y, m, d) + 1
        }),
{
    lemma_month_days(y, m);
    assert(civil_days(y, m, d) == civil_days(y, m, 1) + d - 1);
}

/// A token that one editor alone deleted and brought back has no conflict.
pub proof fn one_editor_has_no_conflict(
    a: ArticleView,
    inbound: Seq<u64>,
    outbound: Seq<u64>,
    editor: Seq<char>,
)
    requires
        forall|i: int| 0 <= i < inbound.len() ==> editor_at(a, #[trigger] inbound[i]) == editor,
        forall|i: int| 0 <= i < outbound.len() ==> editor_at(a, #[trigger] outbound[i]) == editor,
    ensures
        conflict_score(a, inbound, outbound) == 0,
{
    lemma_no_conflict(a, inbound, outbound, editor, outbound.len() as int);
}

proof fn lemma_no_conflict(
    a: ArticleView,
    inbound: Seq<u64>,
    outbound: Seq<u64>,
    editor: Seq<char>,
    k: int,
)
    requires
        forall|i: int| 0 <= i < inbound.len() ==> editor_at(a, #[trigger] inbound[i]) == editor,
        forall|i: int| 0 <= i < outbound.len() ==> editor_at(a, #[trigger] outbound[i]) == editor,
        k <= outbound.len(),
    ensures
        conflicts(a, inbound, outbound, k) == 0,
    decreases k,
{
    if k > 0 {
        lemma_no_conflict(a, inbound, outbound, editor, k - 1);
        assert(editor_at(a, outbound[k - 1]) == editor);
    }
}

/// The revisions that deleted a token and those that brought it back, in turns.
pub open spec fn in_turns(inbound: Seq<u64>, outbound: Seq<u64>) -> Seq<u64> {
    Seq::new(
        inbound.len() + outbound.len(),
        |i: int|
            if i % 2 == 0 {
                outbound[i / 2]
            } else {
                inbound[i / 2]
            },
    )
}

/// How often the editor changes from one revision to the next.
pub open spec fn editor_changes(a: ArticleView, revs: Seq<u64>) -> int
    decreases revs.len(),
{
    if revs.len() < 2 {
        0
    } else {
        editor_changes(a, revs.drop_last()) + if editor_at(a, revs[revs.len() - 2]) != editor_at(
            a,
            revs[revs.len() - 1],
        ) {
            1int
        } else {
            0
        }
    }
}

/// What the score does not look at: revisions that brought a token back after the last
/// deletion.
proof fn lemma_conflicts_start(
    a: ArticleView,
    inbound: Seq<u64>,
    outbound: Seq<u64>,
    x: Seq<u64>,
    y: Seq<u64>,
    k: int,
)
    requires
        0 <= k <= outbound.len(),
        k <= y.len(),
        forall|i: int| 0 <= i < k ==> outbound[i] == y[i],
        inbound.len() < k || x.len() < k ==> inbound.len() == x.len(),
        forall|i: int| 0 <= i < k && i < inbound.len() ==> inbound[i] == x[i],
    ensures
        conflicts(a, inbound, outbound, k) == conflicts(a, x, y, k),
    decreases k,
{
    if k > 0 {
        lemma_conflicts_start(a, inbound, outbound, x, y, k - 1);
        let back = if k - 1 <= inbound.len() {
            k - 1
        } else {
            inbound.len() as int
        };
        if back > 0 {
            assert(inbound[back - 1] == x[back - 1]);
        }
    }
}

/// The score counts how often one editor undoes another: in the revisions that deleted
/// the token and brought it back in turns, how often the editor changes. What was
/// brought back beyond the last deletion does not count.
pub proof fn score_counts_changes(a: ArticleView, inbound: Seq<u64>, outbound: Seq<u64>)
    ensures
        inbound.len() <= outbound.len() <= inbound.len() + 1 ==> conflict_score(
            a,
            inbound,
            outbound,
        ) == editor_changes(a, in_turns(inbound, outbound)),
        outbound.len() < inbound.len() ==> conflict_score(a, inbound, outbound) == conflict_score(
            a,
            inbound.take(outbound.len() as int),
            outbound,
        ),
    decreases outbound.len() + inbound.len(),
{
    let n = outbound.len() as int;
    let turns = in_turns(inbound, outbound);
    if n < inbound.len() {
        lemma_conflicts_start(a, inbound, outbound, inbound.take(n), outbound, n);
    } else if n == inbound.len() && n > 0 {
        let less = inbound.drop_last();
        score_counts_changes(a, less, outbound);
        lemma_conflicts_start(a, inbound, outbound, less, outbound, n - 1);
        assert(in_turns(less, outbound) =~= turns.drop_last());
        assert(turns[2 * n - 1] == inbound[n - 1]);
        assert(turns[2 * n - 2] == outbound[n - 1]);
        assert(n >= 2 ==> less[n - 2] == inbound[n - 2]);
    } else if n == inbound.len() + 1 {
        let less = outbound.drop_last();
        score_counts_changes(a, inbound, less);
        lemma_conflicts_start(a, inbound, outbound, inbound, less, n - 1);
        assert(in_turns(inbound, less) =~= turns.drop_last());
        assert(turns[2 * n - 2] == outbound[n - 1]);
        if n >= 2 {
            assert(turns[2 * n - 3] == inbound[n - 2]);
        }
    }
}

/// Where one editor deletes a token again and again and another brings it back each
/// time, every revision but the first undoes the one before: `n` deletions and `n`
/// returns score `2 n - 1`, and one more deletion one more than that.
pub proof fn a_war_scores_every_move(
    a: ArticleView,
    inbound: Seq<u64>,
    outbound: Seq<u64>,
    deleting: Seq<char>,
    restoring: Seq<char>,
)
    requires
        deleting != restoring,
        outbound.len() > 0,
        inbound.len() <= outbound.len() <= inbound.len() + 1,
        forall|i: int| 0 <= i < inbound.len() ==> editor_at(a, #[trigger] inbound[i]) == restoring,
        forall|i: int| 0 <= i < outbound.len() ==> editor_at(a, #[trigger] outbound[i]) == deleting,
    ensures
        conflict_score(a, inbound, outbound) == inbound.len() + outbound.len() - 1,
{
    score_counts_changes(a, inbound, outbound);
    let turns = in_turns(inbound, outbound);
    assert forall|i: int| 0 <= i < turns.len() - 1 implies editor_at(a, #[trigger] turns[i])
        != editor_at(a, turns[i + 1]) by {
        if i % 2 == 0 {
            assert(turns[i] == outbound[i / 2]);
            assert(turns[i + 1] == inbound[(i + 1) / 2]);
        } else {
            assert(turns[i] == inbound[i / 2]);
            assert(turns[i + 1] == outbound[(i + 1) / 2]);
        }
    }
    lemma_all_change(a, turns);
}

proof fn lemma_all_change(a: ArticleView, revs: Seq<u64>)
    requires
        revs.len() > 0,
        forall|i: int|
            0 <= i < revs.len() - 1 ==> editor_at(a, #[trigger] revs[i]) != editor_at(
                a,
                revs[i + 1],
            ),
    ensures
        editor_changes(a, revs) == revs.len() - 1,
    decreases revs.len(),
{
    if revs.len() > 1 {
        let less = revs.drop_last();
        assert forall|i: int| 0 <= i < less.len() - 1 implies editor_at(a, #[trigger] less[i])
            != editor_at(a, less[i + 1]) by {
            assert(less[i] == revs[i] && less[i + 1] == revs[i + 1]);
        }
        lemma_all_change(a, less);
        assert(editor_at(a, revs[revs.len() - 2]) != editor_at(a, revs[revs.len() - 2 + 1]));
    }
}

/// One more deletion counts once more where another editor brought the token back last,
/// and one more return where another editor deleted it.
pub proof fn each_move_is_scored(
    a: ArticleView,
    inbound: Seq<u64>,
    outbound: Seq<u64>,
    rev: u64,
)
    ensures
        conflict_score(a, inbound, outbound.push(rev)) == conflict_score(a, inbound, outbound) + (
        if inbound.len() > 0 && outbound.len() >= inbound.len() && editor_at(a, inbound.last())
            != editor_at(a, rev) {
            1int
        } else {
            0
        }) + (if outbound.len() < inbound.len() {
            (if outbound.len() > 0 && editor_at(a, inbound[outbound.len() - 1]) != editor_at(
                a,
                rev,
            ) {
                1int
            } else {
                0
            }) + (if editor_at(a, inbound[outbound.len() as int]) != editor_at(a, rev) {
                1int
            } else {
                0
            })
        } else {
            0
        }),
        outbound.len() == inbound.len() + 1 ==> conflict_score(a, inbound.push(rev), outbound)
            == conflict_score(a, inbound, outbound) + if editor_at(a, outbound.last())
            != editor_at(a, rev) {
            1int
        } else {
            0
        },
{
    let n = outbound.len() as int;
    lemma_conflicts_start(a, inbound, outbound, inbound, outbound.push(rev), n);
    if n == inbound.len() + 1 {
        lemma_conflicts_start(a, inbound, outbound, inbound.push(rev), outbound, n - 1);
        if n >= 2 {
            assert(inbound.push(rev)[n - 2] == inbound[n - 2]);
        }
    }
}

proof fn lemma_biggest(ts: Seq<ColorTokenView>, k: int)
    requires
        0 <= k <= ts.len(),
        forall|i: int| 0 <= i < ts.len() ==> (#[trigger] ts[i]).conflict_score >= 0,
    ensures
        forall|i: int| 0 <= i < k ==> (#[trigger] ts[i]).conflict_score <= biggest_score(ts, k),
        k > 0 ==> exists|i: int|
            0 <= i < k && (#[trigger] ts[i]).conflict_score == biggest_score(ts, k),
        k == 0 ==> biggest_score(ts, k) == 0,
        biggest_score(ts, k) >= 0,
    decreases k,
{
    if k > 0 {
        lemma_biggest(ts, k - 1);
        let rest = biggest_score(ts, k - 1);
        if ts[k - 1].conflict_score > rest {
            assert(ts[k - 1].conflict_score == biggest_score(ts, k));
        } else if k - 1 > 0 {
            let i = choose|i: int|
                0 <= i < k - 1 && (#[trigger] ts[i]).conflict_score == biggest_score(ts, k - 1);
            assert(ts[i].conflict_score == biggest_score(ts, k));
        } else {
            assert(ts[0].conflict_score == biggest_score(ts, k));
        }
    }
}

proof fn lemma_conflicts_positive(a: ArticleView, inbound: Seq<u64>, outbound: Seq<u64>, k: int)
    ensures
        conflicts(a, inbound, outbound, k) >= 0,
    decreases k,
{
    if k > 0 {
        lemma_conflicts_positive(a, inbound, outbound, k - 1);
    }
}

/// The colouring data of a revision has its tokens in the order of the text, each with
/// its own text, lists, writer and score, and an age that counts from when it was
/// written; the biggest score is one of theirs, and none is bigger.
pub proof fn colors_are_of_the_tokens(a: ArticleView, rev_id: u64, now: int)
    requires
        whocolor(a, rev_id, now) is Ok,
    ensures
        ({
            let d = whocolor(a, rev_id, now)->Ok_0;
            let ids = revision_tokens(a, a.revisions[rev_id]);
            &&& a.revisions.contains_key(rev_id)
            &&& d.tokens.len() == ids.len()
            &&& forall|k: int|
                0 <= k < ids.len() ==> {
                    let t = #[trigger] d.tokens[k];
                    let w = a.tokens[ids[k] as int];
                    &&& t.str == w.value
                    &&& t.o_rev_id == w.origin_rev_id
                    &&& t.inbound == w.inbound
                    &&& t.outbound == w.outbound
                    &&& a.revisions.contains_key(w.origin_rev_id)
                    &&& t.editor == a.revisions[w.origin_rev_id].editor
                    &&& w.inbound.len() <= w.outbound.len() <= w.inbound.len() + 1
                        ==> t.conflict_score == editor_changes(
                        a,
                        in_turns(w.inbound, w.outbound),
                    )
                    &&& unix_seconds(a.revisions[w.origin_rev_id].timestamp) is Some
                        ==> t.age_seconds + unix_seconds(
                        a.revisions[w.origin_rev_id].timestamp,
                    )->0 == now
                    &&& t.conflict_score <= d.biggest_conflict_score
                }
            &&& ids.len() > 0 ==> exists|k: int|
                0 <= k < ids.len() && (#[trigger] d.tokens[k]).conflict_score
                    == d.biggest_conflict_score
            &&& d.revisions.len() == a.ordered_revisions.len()
            &&& forall|n: int|
                0 <= n < d.revisions.len() ==> {
                    let (id, r) = #[trigger] d.revisions[n];
                    &&& id == a.ordered_revisions[n]
                    &&& r.editor == a.revisions[id].editor
                    &&& r.timestamp == a.revisions[id].timestamp
                    &&& n > 0 ==> r.parent_rev_id == d.revisions[n - 1].0
                    &&& n == 0 ==> r.parent_rev_id == 0
                }
        }),
{
    let d = whocolor(a, rev_id, now)->Ok_0;
    let ids = revision_tokens(a, a.revisions[rev_id]);
    assert forall|k: int| 0 <= k < d.tokens.len() implies (
    #[trigger] d.tokens[k]).conflict_score >= 0 by {
        let w = a.tokens[ids[k] as int];
        lemma_conflicts_positive(a, w.inbound, w.outbound, w.outbound.len() as int);
    }
    lemma_biggest(d.tokens, ids.len() as int);
    assert forall|k: int| 0 <= k < ids.len() implies a.revisions.contains_key(
        a.tokens[(#[trigger] ids[k]) as int].origin_rev_id,
    ) by {
        lemma_no_orphan(a, ids, 0, k);
    }
    assert forall|k: int| 0 <= k < ids.len() implies ({
        let t = #[trigger] d.tokens[k];
        let w = a.tokens[ids[k] as int];
        w.inbound.len() <= w.outbound.len() <= w.inbound.len() + 1 ==> t.conflict_score
            == editor_changes(a, in_turns(w.inbound, w.outbound))
    }) by {
        let w = a.tokens[ids[k] as int];
        score_counts_changes(a, w.inbound, w.outbound);
    }
}

proof fn lemma_no_orphan(a: ArticleView, ids: Seq<usize>, k: int, i: int)
    requires
        0 <= k <= i < ids.len(),
        first_orphan(a, ids, k) is None,
    ensures
        a.revisions.contains_key(a.tokens[ids[i] as int].origin_rev_id),
    decreases i - k,
{
    if k < i {
        lemma_no_orphan(a, ids, k + 1, i);
    }
}

/// A digit.
pub open spec fn digit_char(n: int) -> char {
    ('0' as int + n) as char
}

/// A number of two digits.
pub open spec fn two_digits(n: int) -> Seq<char> {
    seq![digit_char(n / 10), digit_char(n % 10)]
}

/// A time as a wiki writes it.
pub open spec fn written_time(y: int, m: int, d: int, h: int, min: int, sec: int) -> Seq<char> {
    two_digits(y / 100) + two_digits(y % 100) + seq!['-'] + two_digits(m) + seq!['-'] + two_digits(
        d,
    ) + seq!['T'] + two_digits(h) + seq![':'] + two_digits(min) + seq![':'] + two_digits(sec)
        + seq!['Z']
}

proof fn lemma_two_digits(s: Seq<char>, at: int, n: int)
    requires
        0 <= n < 100,
        0 <= at,
        at + 2 <= s.len(),
        s[at] == digit_char(n / 10),
        s[at + 1] == digit_char(n % 10),
    ensures
        digits_value(s, at, at + 2) == Some(n),
{
    reveal_with_fuel(digits_value, 3);
}

/// A time is read as it is written: as the days to its date, and the seconds of the day.
pub proof fn times_are_read_as_written(y: int, m: int, d: int, h: int, min: int, sec: int)
    requires
        0 <= y < 10000,
        is_date(y, m, d),
        0 <= h < 24,
        0 <= min < 60,
        0 <= sec < 60,
    ensures
        unix_seconds(written_time(y, m, d, h, min, sec)) == Some(
            civil_days(y, m, d) * 86400 + h * 3600 + min * 60 + sec,
        ),
{
    let s = written_time(y, m, d, h, min, sec);
    assert(s.len() == 20);
    lemma_two_digits(s, 0, y / 100);
    lemma_two_digits(s, 5, m);
    lemma_two_digits(s, 8, d);
    lemma_two_digits(s, 11, h);
    lemma_two_digits(s, 14, min);
    lemma_two_digits(s, 17, sec);
    let tail = y % 100;
    assert(s[2] == digit_char(tail / 10) && s[3] == digit_char(tail % 10));
    assert(digits_value(s, 0, 4) == Some(y)) by {
        reveal_with_fuel(digits_value, 5);
        assert(digits_value(s, 0, 3) == Some(y / 100 * 10 + tail / 10));
    }
}

} // verus!
