//! Where in the stream to go on after a restart.
use crate::text::same_text;
use vstd::prelude::*;

verus! {

/// The checkpoint as it is stored: the last event of each language, as the stream
/// names it.
#[derive(Debug)]
pub struct CheckpointFile {
    pub version: u32,
    pub last_event_id: Vec<(String, String)>,
}

/// The last event of each language, and how many changes are not stored.
pub struct Checkpoint {
    data: CheckpointFile,
    dirty: usize,
}

/// The events by language.
pub type Ids = Seq<(Seq<char>, Seq<char>)>;

/// The model of a checkpoint.
pub struct CheckpointView {
    pub version: u32,
    pub ids: Ids,
    pub dirty: usize,
}

/// The events by language.
pub open spec fn id_views(v: Seq<(String, String)>) -> Ids {
    v.map_values(|p: (String, String)| (p.0@, p.1@))
}

impl View for Checkpoint {
    type V = CheckpointView;

    closed spec fn view(&self) -> CheckpointView {
        CheckpointView {
            version: self.data.version,
            ids: id_views(self.data.last_event_id@),
            dirty: self.dirty,
        }
    }
}

/// The place of a language from `k` on.
pub open spec fn lang_place(ids: Ids, language: Seq<char>, k: int) -> int
    decreases ids.len() - k,
{
    if k < 0 || k >= ids.len() {
        ids.len() as int
    } else if ids[k].0 == language {
        k
    } else {
        lang_place(ids, language, k + 1)
    }
}

/// The last event of a language; empty where there is none.
pub open spec fn id_of(ids: Ids, language: Seq<char>) -> Seq<char> {
    let k = lang_place(ids, language, 0);
    if k < ids.len() {
        ids[k].1
    } else {
        Seq::empty()
    }
}

/// The events with that of a language set.
pub open spec fn with_event(ids: Ids, language: Seq<char>, id: Seq<char>) -> Ids {
    let k = lang_place(ids, language, 0);
    if k < ids.len() {
        ids.update(k, (language, id))
    } else {
        ids.push((language, id))
    }
}

/// The events with an entry for each language from the `k`th on.
pub open spec fn with_languages(ids: Ids, languages: Seq<String>, k: int) -> Ids
    decreases languages.len() - k,
{
    if k < 0 || k >= languages.len() {
        ids
    } else {
        with_languages(with_event(ids, languages[k]@, id_of(ids, languages[k]@)), languages, k + 1)
    }
}

/// The first event, from `k` on, that is not empty.
pub open spec fn first_id(ids: Ids, k: int) -> Option<Seq<char>>
    decreases ids.len() - k,
{
    if k < 0 || k >= ids.len() {
        None
    } else if ids[k].1.len() > 0 {
        Some(ids[k].1)
    } else {
        first_id(ids, k + 1)
    }
}

/// A checkpoint once an event of a language was seen. One that was seen already
/// changes nothing.
pub open spec fn checkpoint_advanced(
    c: CheckpointView,
    language: Seq<char>,
    id: Seq<char>,
) -> CheckpointView {
    let changed = id_of(c.ids, language) != id;
    CheckpointView {
        ids: with_event(c.ids, language, id),
        dirty: if changed && c.dirty < usize::MAX {
            (c.dirty + 1) as usize
        } else {
            c.dirty
        },
        ..c
    }
}

/// The place of a language.
fn find_lang(v: &Vec<(String, String)>, language: &str) -> (r: usize)
    ensures
        r == lang_place(id_views(v@), language@, 0),
        r <= v@.len(),
{
    let ghost ids = id_views(v@);
    let mut k: usize = 0;
    while k < v.len()
        invariant
            k <= v@.len(),
            ids == id_views(v@),
            lang_place(ids, language@, k as int) == lang_place(ids, language@, 0),
        decreases v@.len() - k,
    {
        proof {
            assert(ids[k as int] == (v@[k as int].0@, v@[k as int].1@));
        }
        if same_text(v[k].0.as_str(), language) {
            return k;
        }
        k = k + 1;
    }
    k
}

/// Sets the event of a language.
fn set_event(v: &mut Vec<(String, String)>, language: &str, id: &str)
    ensures
        id_views(final(v)@) == with_event(id_views(old(v)@), language@, id@),
{
    let ghost ids = id_views(v@);
    let k = find_lang(v, language);
    let entry = (language.to_owned(), id.to_owned());
    if k < v.len() {
        v.set(k, entry);
    } else {
        v.push(entry);
    }
    proof {
        assert(id_views(v@) =~= with_event(ids, language@, id@));
    }
}

/// The event of a language.
fn get_event(v: &Vec<(String, String)>, language: &str) -> (r: String)
    ensures
        r@ == id_of(id_views(v@), language@),
{
    let k = find_lang(v, language);
    if k < v.len() {
        proof {
            assert(id_views(v@)[k as int] == (v@[k as int].0@, v@[k as int].1@));
        }
        v[k].1.clone()
    } else {
        String::new()
    }
}

/// The checkpoint as it is stored, or an empty one.
pub open spec fn stored_ids(file: Option<CheckpointFile>) -> Ids {
    match file {
        Some(f) => id_views(f.last_event_id@),
        None => Seq::empty(),
    }
}

impl Checkpoint {
    /// Takes the checkpoint as it was stored, or begins an empty one where none was
    /// or it cannot be read. Each language has an entry.
    pub fn load_or_init(file: Option<CheckpointFile>, languages: &Vec<String>) -> (r: Self)
        ensures
            r@ == (CheckpointView {
                version: match file {
                    Some(f) => if f.version == 0 {
                        1
                    } else {
                        f.version
                    },
                    None => 1,
                },
                ids: with_languages(stored_ids(file), languages@, 0),
                dirty: 0,
            }),
    {
        let mut data = match file {
            Some(f) => f,
            None => CheckpointFile { version: 0, last_event_id: Vec::new() },
        };
        if data.version == 0 {
            data.version = 1;
        }
        let ghost start = id_views(data.last_event_id@);
        let ghost version = data.version;
        proof {
            assert(start =~= stored_ids(file));
        }
        let mut k: usize = 0;
        while k < languages.len()
            invariant
                k <= languages@.len(),
                data.version == version,
                with_languages(id_views(data.last_event_id@), languages@, k as int)
                    == with_languages(start, languages@, 0),
            decreases languages@.len() - k,
        {
            let id = get_event(&data.last_event_id, languages[k].as_str());
            set_event(&mut data.last_event_id, languages[k].as_str(), id.as_str());
            k = k + 1;
        }
        Checkpoint { data, dirty: 0 }
    }

    /// Records the last event of a language.
    pub fn advance(&mut self, language: &str, event_id: &str)
        ensures
            final(self)@ == checkpoint_advanced(old(self)@, language@, event_id@),
    {
        let now = get_event(&self.data.last_event_id, language);
        if !same_text(now.as_str(), event_id) {
            if self.dirty < usize::MAX {
                self.dirty = self.dirty + 1;
            }
        }
        set_event(&mut self.data.last_event_id, language, event_id);
    }

    /// How many changes are not stored.
    pub fn dirty_count(&self) -> (r: usize)
        ensures
            r == self@.dirty,
    {
        self.dirty
    }

    /// Where in the stream to go on: the first event that there is.
    pub fn last_event_id_header(&self) -> (r: Option<String>)
        ensures
            match r {
                Some(s) => first_id(self@.ids, 0) == Some(s@),
                None => first_id(self@.ids, 0) is None,
            },
    {
        let v = &self.data.last_event_id;
        let ghost ids = self@.ids;
        let mut k: usize = 0;
        while k < v.len()
            invariant
                k <= v@.len(),
                ids == id_views(v@),
                ids == self@.ids,
                first_id(ids, k as int) == first_id(ids, 0),
            decreases v@.len() - k,
        {
            proof {
                assert(ids[k as int] == (v@[k as int].0@, v@[k as int].1@));
            }
            if !v[k].1.as_str().is_empty() {
                return Some(v[k].1.clone());
            }
            k = k + 1;
        }
        None
    }

    /// The checkpoint as it is to be stored.
    pub fn data(&self) -> (r: &CheckpointFile)
        ensures
            r.version == self@.version,
            id_views(r.last_event_id@) == self@.ids,
    {
        &self.data
    }

    /// Records that the checkpoint was stored.
    pub fn flush(&mut self)
        ensures
            final(self)@ == (CheckpointView { dirty: 0, ..old(self)@ }),
    {
        self.dirty = 0;
    }

    /// The last event of a language; nothing where there is none.
    pub fn last_event_id(&self, language: &str) -> (r: Option<String>)
        ensures
            match r {
                Some(s) => s@ == id_of(self@.ids, language@) && s@.len() > 0,
                None => id_of(self@.ids, language@).len() == 0,
            },
    {
        let id = get_event(&self.data.last_event_id, language);
        if id.as_str().is_empty() {
            None
        } else {
            Some(id)
        }
    }
}

proof fn lemma_lang_place(ids: Ids, language: Seq<char>, k: int)
    requires
        0 <= k <= ids.len(),
    ensures
        k <= lang_place(ids, language, k) <= ids.len(),
        lang_place(ids, language, k) < ids.len() ==> ids[lang_place(ids, language, k)].0 == language,
        forall|i: int| k <= i < lang_place(ids, language, k) ==> ids[i].0 != language,
    decreases ids.len() - k,
{
    if k < ids.len() && ids[k].0 != language {
        lemma_lang_place(ids, language, k + 1);
    }
}

proof fn lemma_place_at(ids: Ids, language: Seq<char>, k: int, at: int)
    requires
        0 <= k <= at < ids.len(),
        ids[at].0 == language,
        forall|i: int| k <= i < at ==> ids[i].0 != language,
    ensures
        lang_place(ids, language, k) == at,
    decreases at - k,
{
    if k < at {
        lemma_place_at(ids, language, k + 1, at);
    }
}

/// What was recorded of a language is what it goes on from, and recording it again
/// changes nothing.
pub proof fn advancing_is_remembered(c: CheckpointView, language: Seq<char>, id: Seq<char>)
    ensures
        ({
            let d = checkpoint_advanced(c, language, id);
            id_of(d.ids, language) == id && checkpoint_advanced(d, language, id) == d
        }),
{
    let d = checkpoint_advanced(c, language, id);
    let k = lang_place(c.ids, language, 0);
    lemma_lang_place(c.ids, language, 0);
    lemma_place_at(d.ids, language, 0, k);
    assert(with_event(d.ids, language, id) =~= d.ids);
}

} // verus!
