//! Capturing the histories of pages into files.
use crate::json::{field_in, opt_json, u64_in, unsigned_in, JsonValue};
use crate::outside::{json_parsed, json_value, parse_json};
use crate::text::{chars_of, concat3, contains_text, decimal, decimal_text, occurs_in, texts};
use vstd::prelude::*;

verus! {

/// Whether one of the filters from the `k`th on occurs in one of two texts.
pub open spec fn filter_hits(fs: Seq<Seq<char>>, key: Seq<char>, path: Seq<char>, k: int) -> bool
    decreases fs.len() - k,
{
    if k < 0 || k >= fs.len() {
        false
    } else {
        occurs_in(key, fs[k]) || occurs_in(path, fs[k]) || filter_hits(fs, key, path, k + 1)
    }
}

/// Whether a page is to be captured: every one where there are no filters, one whose
/// language and id, or whose path, holds a filter otherwise.
pub fn is_selected(only: &Vec<String>, lang: &str, page_id: u64, path: &str) -> (r: bool)
    ensures
        r == (only@.len() == 0 || filter_hits(
            texts(only@),
            lang@ + "/"@ + decimal(page_id as nat),
            path@,
            0,
        )),
{
    if only.len() == 0 {
        return true;
    }
    let key = concat3(lang, "/", decimal_text(page_id).as_str());
    let key_chars = chars_of(key.as_str());
    let path_chars = chars_of(path);
    let ghost fs = texts(only@);
    let mut k: usize = 0;
    while k < only.len()
        invariant
            k <= only@.len(),
            only@.len() > 0,
            fs == texts(only@),
            key_chars@ == lang@ + "/"@ + decimal(page_id as nat),
            path_chars@ == path@,
            filter_hits(fs, key_chars@, path_chars@, k as int) == filter_hits(
                fs,
                key_chars@,
                path_chars@,
                0,
            ),
        decreases only@.len() - k,
    {
        proof {
            assert(fs[k as int] == only@[k as int]@);
        }
        if contains_text(&key_chars, only[k].as_str()) || contains_text(
            &path_chars,
            only[k].as_str(),
        ) {
            return true;
        }
        k = k + 1;
    }
    false
}

/// What came of a page.
#[derive(Debug, Clone, Copy, PartialEq, Eq, Structural)]
pub enum CaptureOutcome {
    Captured,
    Skipped,
    /// Its history is longer than the cap.
    Aborted,
    Failed,
}

/// How many pages came to what.
#[derive(Debug, Clone, Copy, PartialEq, Eq, Structural)]
pub struct Totals {
    pub captured: u64,
    pub skipped: u64,
    pub aborted: u64,
    pub failed: u64,
}

/// One more, as far as there is.
pub open spec fn one_more(n: u64) -> u64 {
    if n < u64::MAX {
        (n + 1) as u64
    } else {
        n
    }
}

fn count_one(n: u64) -> (r: u64)
    ensures
        r == one_more(n),
{
    if n < u64::MAX {
        n + 1
    } else {
        n
    }
}

impl Totals {
    /// No page yet.
    pub fn new() -> (r: Self)
        ensures
            r == (Totals { captured: 0, skipped: 0, aborted: 0, failed: 0 }),
    {
        Totals { captured: 0, skipped: 0, aborted: 0, failed: 0 }
    }

    /// Counts what came of a page.
    pub fn record(self, outcome: CaptureOutcome) -> (r: Self)
        ensures
            r == (match outcome {
                CaptureOutcome::Captured => Totals { captured: one_more(self.captured), ..self },
                CaptureOutcome::Skipped => Totals { skipped: one_more(self.skipped), ..self },
                CaptureOutcome::Aborted => Totals { aborted: one_more(self.aborted), ..self },
                CaptureOutcome::Failed => Totals { failed: one_more(self.failed), ..self },
            }),
    {
        let mut t = self;
        match outcome {
            CaptureOutcome::Captured => {
                t.captured = count_one(t.captured);
            },
            CaptureOutcome::Skipped => {
                t.skipped = count_one(t.skipped);
            },
            CaptureOutcome::Aborted => {
                t.aborted = count_one(t.aborted);
            },
            CaptureOutcome::Failed => {
                t.failed = count_one(t.failed);
            },
        }
        t
    }

    /// Whether the run is a success: nothing failed.
    pub fn succeeded(&self) -> (r: bool)
        ensures
            r == (self.failed == 0),
    {
        self.failed == 0
    }
}

/// Whether a page is to be fetched: one whose file is complete is left, unless it is
/// to be captured anew.
pub fn is_due(refresh: bool, complete: bool) -> (r: bool)
    ensures
        r == (refresh || !complete),
{
    refresh || !complete
}

/// How much of a history was written.
#[derive(Debug, Clone, Copy, PartialEq, Eq, Structural)]
pub struct CaptureProgress {
    pub written: u128,
    pub batches: u64,
}

/// What to do after a batch.
#[derive(Debug, Clone, Copy, PartialEq, Eq, Structural)]
pub struct CaptureStep {
    /// Say how far it is.
    pub report: bool,
    /// Stop: the history is longer than the cap.
    pub abort: bool,
}

impl CaptureProgress {
    /// Nothing written yet.
    pub fn new() -> (r: Self)
        ensures
            r == (CaptureProgress { written: 0, batches: 0 }),
    {
        CaptureProgress { written: 0, batches: 0 }
    }

    /// Counts a batch. The first, every tenth and the last are worth a word; a history
    /// that reaches the cap before its end is given up.
    pub fn after_batch(self, revisions: usize, saw_end: bool, max_revs: Option<u64>) -> (r: (
        CaptureProgress,
        CaptureStep,
    ))
        requires
            self.written <= self.batches * usize::MAX,
            self.batches < u64::MAX,
        ensures
            r.0 == (CaptureProgress {
                written: (self.written + revisions) as u128,
                batches: (self.batches + 1) as u64,
            }),
            r.0.written == self.written + revisions,
            r.0.written <= r.0.batches * usize::MAX,
            r.1.report == (r.0.batches == 1 || r.0.batches % 10 == 0 || saw_end),
            r.1.abort == (max_revs is Some && r.0.written >= max_revs->0 && !saw_end),
    {
        proof {
            let b = self.batches as int;
            assert((b + 1) * usize::MAX == b * usize::MAX + usize::MAX) by (nonlinear_arith);
            assert(b * usize::MAX <= u64::MAX * usize::MAX) by (nonlinear_arith)
                requires
                    0 <= b <= u64::MAX,
            ;
            assert((b + 1) * usize::MAX <= u64::MAX * usize::MAX) by (nonlinear_arith)
                requires
                    0 <= b < u64::MAX,
            ;
            assert(u64::MAX * usize::MAX <= u128::MAX) by (nonlinear_arith)
                requires
                    usize::MAX <= u64::MAX,
            ;
        }
        let written: u128 = self.written + revisions as u128;
        let batches: u64 = self.batches + 1;
        let abort = match max_revs {
            Some(cap) => written >= cap as u128 && !saw_end,
            None => false,
        };
        (
            CaptureProgress { written, batches },
            CaptureStep { report: batches == 1 || batches % 10 == 0 || saw_end, abort },
        )
    }
}

/// The length of a text without the line feeds at its end.
pub open spec fn content_len(b: Seq<u8>) -> int
    decreases b.len(),
{
    if b.len() > 0 && b.last() == 0x0a {
        content_len(b.drop_last())
    } else {
        b.len() as int
    }
}

/// The last line feed before `n`.
pub open spec fn last_feed(b: Seq<u8>, n: int) -> Option<int>
    decreases n,
{
    if n <= 0 || n > b.len() {
        None
    } else if b[n - 1] == 0x0a {
        Some(n - 1)
    } else {
        last_feed(b, n - 1)
    }
}

/// Where the last line of a text is that is not empty, of which `b` is the end; nothing
/// where it may begin before. `whole` is whether `b` is the whole of it.
pub open spec fn last_line(b: Seq<u8>, whole: bool) -> Option<(int, int)> {
    match last_feed(b, content_len(b)) {
        Some(i) => Some((i + 1, content_len(b))),
        None => if whole {
            Some((0, content_len(b)))
        } else {
            None
        },
    }
}

/// Finds the last line of a file in the end of it that was read.
pub fn find_last_line(buf: &[u8], whole: bool) -> (r: Option<(usize, usize)>)
    ensures
        match r {
            Some((from, to)) => last_line(buf@, whole) == Some((from as int, to as int)) && from
                <= to <= buf@.len(),
            None => last_line(buf@, whole) is None,
        },
{
    let mut end: usize = buf.len();
    proof {
        assert(buf@.take(end as int) =~= buf@);
    }
    while end > 0 && buf[end - 1] == 0x0a
        invariant
            end <= buf@.len(),
            content_len(buf@.take(end as int)) == content_len(buf@),
        decreases end,
    {
        proof {
            assert(buf@.take(end as int).drop_last() =~= buf@.take(end - 1));
        }
        end = end - 1;
    }
    proof {
        if end > 0 {
            assert(buf@.take(end as int).last() == buf@[end - 1]);
        }
        assert(content_len(buf@) == end);
    }
    let mut i: usize = end;
    while i > 0 && buf[i - 1] != 0x0a
        invariant
            i <= end <= buf@.len(),
            last_feed(buf@, i as int) == last_feed(buf@, end as int),
        decreases i,
    {
        i = i - 1;
    }
    if i > 0 || whole {
        Some((i, end))
    } else {
        None
    }
}

proof fn lemma_content_end(b: Seq<u8>, k: int)
    requires
        0 <= k <= b.len(),
        content_len(b.skip(k)) > 0,
    ensures
        content_len(b) == k + content_len(b.skip(k)),
        content_len(b.skip(k)) <= b.len() - k,
    decreases b.len(),
{
    let w = b.skip(k);
    if w.len() > 0 && w.last() == 0x0a {
        assert(w.last() == b.last());
        assert(w.drop_last() =~= b.drop_last().skip(k));
        lemma_content_end(b.drop_last(), k);
    } else {
        assert(w.len() > 0);
        assert(w.last() == b.last());
    }
}

proof fn lemma_feed_in_end(b: Seq<u8>, k: int, n: int)
    requires
        0 <= k <= b.len(),
        0 <= n <= b.len() - k,
        last_feed(b.skip(k), n) is Some,
    ensures
        last_feed(b, k + n) == Some(k + last_feed(b.skip(k), n)->0),
    decreases n,
{
    if n > 0 && b.skip(k)[n - 1] != 0x0a {
        lemma_feed_in_end(b, k, n - 1);
    }
}

/// A line found in the end of a file is the last line of the file.
pub proof fn last_line_is_found_in_the_end(file: Seq<u8>, k: int)
    requires
        0 <= k <= file.len(),
        last_line(file.skip(k), false) is Some,
    ensures
        ({
            let near = last_line(file.skip(k), false)->0;
            last_line(file, true) == Some((k + near.0, k + near.1))
        }),
{
    let w = file.skip(k);
    lemma_feed_range(w, content_len(w));
    lemma_content_end(file, k);
    lemma_feed_in_end(file, k, content_len(w));
}

proof fn lemma_feed_range(b: Seq<u8>, n: int)
    ensures
        last_feed(b, n) is Some ==> 0 <= last_feed(b, n)->0 < n <= b.len(),
    decreases n,
{
    if 0 < n <= b.len() && b[n - 1] != 0x0a {
        lemma_feed_range(b, n - 1);
    }
}

/// How much of the end of a file is read next: four times as much, as far as there is.
pub fn next_chunk(chunk: u64) -> (r: u64)
    ensures
        r == (if chunk * 4 > u64::MAX {
            u64::MAX as int
        } else {
            chunk * 4
        }),
{
    if chunk > u64::MAX / 4 {
        u64::MAX
    } else {
        chunk * 4
    }
}

/// Whether a line of a history is the revision that was asked for. One that is no
/// JSON is not.
pub fn line_is_target(line: &[u8], target_rev_id: u64) -> (r: bool)
    ensures
        r == (unsigned_in(field_in(json_parsed(line@), "rev_id"@)) == Some(target_rev_id)),
{
    match parse_json(line) {
        Some(v) => line_matches_target(Some(&json_value(&v)), target_rev_id),
        None => line_matches_target(None, target_rev_id),
    }
}

/// Whether a line, where it is JSON, is the revision that was asked for.
pub fn line_matches_target(line: Option<&JsonValue>, target_rev_id: u64) -> (r: bool)
    ensures
        r == (unsigned_in(field_in(opt_json(line), "rev_id"@)) == Some(target_rev_id)),
{
    match line {
        Some(v) => match u64_in(v.get("rev_id")) {
            Some(id) => id == target_rev_id,
            None => false,
        },
        None => false,
    }
}

} // verus!
