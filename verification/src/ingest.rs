//! Keeping articles current from the stream of changes.
pub mod apply;
pub mod checkpoint;
pub mod config;
pub mod events;

use crate::ingest::checkpoint::{checkpoint_advanced, first_id, Checkpoint};
use crate::ingest::config::IngestConfig;
use crate::ingest::events::{lang_to_wiki, wiki_of, PageEdit};
use crate::text::{same_text, texts};
use vstd::hash_set::StringHashSet;
use vstd::prelude::*;

verus! {

/// What a request for the stream says of its sender.
pub const USER_AGENT: &'static str =
    "wikiwho_rust-ingest/0.1.0 (https://github.com/WikiEducationFoundation; sage@wikiedu.org)";

/// What to do with what came from the stream.
#[derive(Debug, Clone, Copy, PartialEq, Eq, Structural)]
pub enum IngestAction {
    /// Write the checkpoint, and end.
    Stop,
    /// Wait for the next.
    Skip,
    /// Bring the article up to date.
    Apply,
}

/// The wikis of several languages, from the `k`th on.
pub open spec fn wikis_of(languages: Seq<Seq<char>>) -> Set<Seq<char>> {
    languages.map_values(|l: Seq<char>| wiki_of(l)).to_set()
}

proof fn lemma_wikis_push(ls: Seq<Seq<char>>, l: Seq<char>)
    ensures
        wikis_of(ls.push(l)) == wikis_of(ls).insert(wiki_of(l)),
{
    let f = |l: Seq<char>| wiki_of(l);
    let a = ls.map_values(f);
    let b = ls.push(l).map_values(f);
    assert(b =~= a.push(wiki_of(l)));
    assert forall|x: Seq<char>| b.to_set().contains(x) implies a.to_set().insert(
        wiki_of(l),
    ).contains(x) by {
        let i = choose|i: int| 0 <= i < b.len() && b[i] == x;
        if i < a.len() {
            assert(a[i] == x);
        }
    }
    assert forall|x: Seq<char>| a.to_set().insert(wiki_of(l)).contains(x) implies b.to_set().contains(
        x,
    ) by {
        if x == wiki_of(l) {
            assert(b[a.len() as int] == x);
        } else {
            let i = choose|i: int| 0 <= i < a.len() && a[i] == x;
            assert(b[i] == x);
        }
    }
    assert(b.to_set() =~= a.to_set().insert(wiki_of(l)));
}

/// A stream being followed.
pub struct Ingest {
    pub config: IngestConfig,
    pub checkpoint: Checkpoint,
}

impl Ingest {
    /// The wikis whose changes are followed.
    pub fn wikis(&self) -> (r: StringHashSet)
        ensures
            r@ == wikis_of(texts(self.config.languages@)),
    {
        let ghost all = texts(self.config.languages@);
        let mut out = StringHashSet::new();
        let mut k: usize = 0;
        proof {
            assert(wikis_of(all.take(0)) =~= Set::empty());
        }
        while k < self.config.languages.len()
            invariant
                k <= self.config.languages@.len(),
                all == texts(self.config.languages@),
                out@ == wikis_of(all.take(k as int)),
            decreases self.config.languages@.len() - k,
        {
            let lang = &self.config.languages[k];
            proof {
                assert(all[k as int] == lang@);
                assert(all.take(k + 1) =~= all.take(k as int).push(all[k as int]));
                lemma_wikis_push(all.take(k as int), all[k as int]);
            }
            out.insert(lang_to_wiki(lang.as_str()));
            k = k + 1;
        }
        proof {
            assert(all.take(all.len() as int) =~= all);
        }
        out
    }

    /// Where in the stream to begin; nothing for now.
    pub fn resume(&self) -> (r: Option<String>)
        ensures
            match r {
                Some(s) => first_id(self.checkpoint@.ids, 0) == Some(s@),
                None => first_id(self.checkpoint@.ids, 0) is None,
            },
    {
        self.checkpoint.last_event_id_header()
    }

    /// Whether the changes of a language are followed.
    fn follows(&self, language: &str) -> (r: bool)
        ensures
            r == texts(self.config.languages@).contains(language@),
    {
        let ghost all = texts(self.config.languages@);
        let mut k: usize = 0;
        while k < self.config.languages.len()
            invariant
                k <= self.config.languages@.len(),
                all == texts(self.config.languages@),
                forall|i: int| 0 <= i < k ==> #[trigger] all[i] != language@,
            decreases self.config.languages@.len() - k,
        {
            proof {
                assert(all[k as int] == self.config.languages@[k as int]@);
            }
            if same_text(self.config.languages[k].as_str(), language) {
                return true;
            }
            k = k + 1;
        }
        false
    }

    /// Decides what to do with what came from the stream. `item` is nothing at the
    /// end of the stream, and an error where the stream broke off.
    pub fn on_item(&self, shut_down: bool, item: &Option<Result<PageEdit, String>>) -> (r:
        IngestAction)
        ensures
            r == (match *item {
                None => IngestAction::Stop,
                Some(_) if shut_down => IngestAction::Stop,
                Some(Err(_)) => IngestAction::Skip,
                Some(Ok(edit)) => if texts(self.config.languages@).contains(edit.language@) {
                    IngestAction::Apply
                } else {
                    IngestAction::Skip
                },
            }),
    {
        match item {
            None => IngestAction::Stop,
            Some(i) => {
                if shut_down {
                    return IngestAction::Stop;
                }
                match i {
                    Err(_) => IngestAction::Skip,
                    Ok(edit) => if self.follows(edit.language.as_str()) {
                        IngestAction::Apply
                    } else {
                        IngestAction::Skip
                    },
                }
            },
        }
    }

    /// Records that a change was dealt with, whether or not that succeeded, and says
    /// whether the checkpoint is to be written.
    pub fn on_applied(&mut self, edit: &PageEdit) -> (r: bool)
        ensures
            final(self).config == old(self).config,
            final(self).checkpoint@ == (match edit.sse_id {
                Some(id) => checkpoint_advanced(old(self).checkpoint@, edit.language@, id@),
                None => old(self).checkpoint@,
            }),
            r == (edit.sse_id is Some && final(self).checkpoint@.dirty
                >= old(self).config.checkpoint_every),
    {
        match &edit.sse_id {
            Some(id) => {
                self.checkpoint.advance(edit.language.as_str(), id.as_str());
                self.checkpoint.dirty_count() >= self.config.checkpoint_every
            },
            None => false,
        }
    }
}

} // verus!
