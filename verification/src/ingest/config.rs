//! What is kept current, and where.
use crate::text::{chars_of, split_on, split_text, texts, trim_text, trimmed};
use vstd::prelude::*;

verus! {

/// Where the stream of changes is.
pub const STREAM_URL: &'static str = "https://stream.wikimedia.org/v2/stream/recentchange";

/// What is kept current, and where.
pub struct IngestConfig {
    pub storage_root: String,
    /// The languages whose articles are kept current.
    pub languages: Vec<String>,
    pub stream_url: String,
    /// After how many changes the checkpoint is written.
    pub checkpoint_every: usize,
}

impl IngestConfig {
    /// The usual configuration.
    pub fn new(storage_root: String, languages: Vec<String>) -> (r: Self)
        ensures
            r.storage_root == storage_root,
            r.languages == languages,
            r.stream_url@ == STREAM_URL@,
            r.checkpoint_every == 25,
    {
        IngestConfig {
            storage_root,
            languages,
            stream_url: STREAM_URL.to_owned(),
            checkpoint_every: 25,
        }
    }
}

/// The parts from the `k`th on without the space around them, and without those that
/// are empty.
pub open spec fn solid_parts(parts: Seq<Seq<char>>, k: int) -> Seq<Seq<char>>
    decreases parts.len() - k,
{
    if k < 0 || k >= parts.len() {
        Seq::empty()
    } else {
        let part = trimmed(parts[k]);
        let rest = solid_parts(parts, k + 1);
        if part.len() == 0 {
            rest
        } else {
            seq![part] + rest
        }
    }
}

/// The languages of a list with commas between them.
pub fn parse_languages(list: &str) -> (r: Vec<String>)
    ensures
        texts(r@) == solid_parts(split_on(list@, ","@), 0),
{
    proof {
        reveal_strlit(",");
    }
    let parts = split_text(&chars_of(list), ",");
    let ghost ps = texts(parts@);
    let ghost goal = solid_parts(ps, 0);
    let mut out: Vec<String> = Vec::new();
    let mut k: usize = 0;
    proof {
        assert(texts(out@) + goal =~= goal);
    }
    while k < parts.len()
        invariant
            k <= parts@.len(),
            ps == texts(parts@),
            texts(out@) + solid_parts(ps, k as int) == goal,
        decreases parts@.len() - k,
    {
        let ghost before = texts(out@);
        let ghost rest = solid_parts(ps, k + 1);
        proof {
            assert(ps[k as int] == parts@[k as int]@);
        }
        let part = trim_text(parts[k].as_str());
        if !part.as_str().is_empty() {
            out.push(part);
            proof {
                assert(texts(out@) =~= before.push(part@));
                assert(texts(out@) + rest =~= before + (seq![part@] + rest));
            }
        }
        k = k + 1;
    }
    proof {
        assert(texts(out@) =~= goal);
    }
    out
}

} // verus!
