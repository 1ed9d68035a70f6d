//! What the server keeps between requests.
use crate::index::TitleIndex;
use crate::text::same_text;
use vstd::hash_map::StringHashMap;
use vstd::prelude::*;

verus! {

/// What the server keeps between requests.
pub struct AppState {
    storage_root: String,
    title_indexes: StringHashMap<TitleIndex>,
    /// The pages whose histories are being fetched, each once.
    in_flight: Vec<(String, u64)>,
}

/// The model of what the server keeps.
pub struct StateView {
    pub storage_root: Seq<char>,
    /// The titles of each language whose index is built.
    pub titles: Map<Seq<char>, Map<Seq<char>, u64>>,
    /// The pages whose histories are being fetched.
    pub in_flight: Set<(Seq<char>, u64)>,
}

/// The pages of a list.
pub open spec fn pages_in(v: Seq<(String, u64)>) -> Set<(Seq<char>, u64)> {
    v.map_values(|p: (String, u64)| (p.0@, p.1)).to_set()
}

/// The titles of several indexes.
pub open spec fn index_views(m: Map<Seq<char>, TitleIndex>) -> Map<
    Seq<char>,
    Map<Seq<char>, u64>,
> {
    m.map_values(|i: TitleIndex| i@)
}

impl View for AppState {
    type V = StateView;

    closed spec fn view(&self) -> StateView {
        StateView {
            storage_root: self.storage_root@,
            titles: index_views(self.title_indexes@),
            in_flight: pages_in(self.in_flight@),
        }
    }
}

proof fn lemma_pages_push(v: Seq<(String, u64)>, p: (String, u64))
    ensures
        pages_in(v.push(p)) == pages_in(v).insert((p.0@, p.1)),
{
    let f = |p: (String, u64)| (p.0@, p.1);
    let a = v.map_values(f);
    let b = v.push(p).map_values(f);
    assert(b =~= a.push(f(p)));
    assert forall|x: (Seq<char>, u64)| b.to_set().contains(x) implies a.to_set().insert(
        f(p),
    ).contains(x) by {
        let i = choose|i: int| 0 <= i < b.len() && b[i] == x;
        if i < a.len() {
            assert(a[i] == x);
        }
    }
    assert forall|x: (Seq<char>, u64)| a.to_set().insert(f(p)).contains(x) implies b.to_set().contains(
        x,
    ) by {
        if x == f(p) {
            assert(b[a.len() as int] == x);
        } else {
            let i = choose|i: int| 0 <= i < a.len() && a[i] == x;
            assert(b[i] == x);
        }
    }
    assert(b.to_set() =~= a.to_set().insert(f(p)));
}

/// Whether a page is in a list.
fn holds_page(v: &Vec<(String, u64)>, language: &str, page_id: u64) -> (r: bool)
    ensures
        r == pages_in(v@).contains((language@, page_id)),
{
    let ghost all = v@.map_values(|p: (String, u64)| (p.0@, p.1));
    let mut k: usize = 0;
    while k < v.len()
        invariant
            k <= v@.len(),
            all == v@.map_values(|p: (String, u64)| (p.0@, p.1)),
            forall|i: int| 0 <= i < k ==> #[trigger] all[i] != (language@, page_id),
        decreases v@.len() - k,
    {
        proof {
            assert(all[k as int] == (v@[k as int].0@, v@[k as int].1));
        }
        if v[k].1 == page_id && same_text(v[k].0.as_str(), language) {
            proof {
                assert(all.contains((language@, page_id)));
            }
            return true;
        }
        k = k + 1;
    }
    proof {
        assert(!all.contains((language@, page_id)));
    }
    false
}

impl AppState {
    /// A server that has not been asked yet.
    pub fn new(storage_root: &str) -> (r: Self)
        ensures
            r@ == (StateView {
                storage_root: storage_root@,
                titles: Map::empty(),
                in_flight: Set::empty(),
            }),
    {
        let r = AppState {
            storage_root: storage_root.to_owned(),
            title_indexes: StringHashMap::new(),
            in_flight: Vec::new(),
        };
        proof {
            assert(index_views(r.title_indexes@) =~= Map::empty());
            assert(pages_in(r.in_flight@) =~= Set::empty());
        }
        r
    }

    /// Where articles are stored.
    pub fn storage_root(&self) -> (r: &str)
        ensures
            r@ == self@.storage_root,
    {
        self.storage_root.as_str()
    }

    /// Whether the index of a language is built.
    pub fn has_title_index(&self, language: &str) -> (r: bool)
        ensures
            r == self@.titles.contains_key(language@),
    {
        self.title_indexes.contains_key(language)
    }

    /// The page of a title, where the index of the language is built and has it.
    pub fn resolve_title(&self, language: &str, title: &str) -> (r: Option<u64>)
        ensures
            r == (if self@.titles.contains_key(language@)
                && self@.titles[language@].contains_key(title@) {
                Some(self@.titles[language@][title@])
            } else {
                None
            }),
    {
        match self.title_indexes.get(language) {
            Some(index) => index.lookup(title),
            None => None,
        }
    }

    /// Takes a fresh index for a language, in place of another.
    pub fn refresh_title_index(&mut self, language: &str, index: TitleIndex)
        ensures
            final(self)@ == (StateView {
                titles: old(self)@.titles.insert(language@, index@),
                ..old(self)@
            }),
    {
        let ghost before = self.title_indexes@;
        self.title_indexes.insert(language.to_owned(), index);
        proof {
            assert(index_views(self.title_indexes@) =~= index_views(before).insert(
                language@,
                index@,
            ));
        }
    }

    /// Takes a fresh index for a language that has none; another that is there
    /// stays.
    pub fn cache_title_index(&mut self, language: &str, index: TitleIndex)
        ensures
            final(self)@ == (StateView {
                titles: if old(self)@.titles.contains_key(language@) {
                    old(self)@.titles
                } else {
                    old(self)@.titles.insert(language@, index@)
                },
                ..old(self)@
            }),
    {
        if !self.has_title_index(language) {
            self.refresh_title_index(language, index);
        }
    }

    /// Whether the history of a page is being fetched.
    pub fn is_in_flight(&self, language: &str, page_id: u64) -> (r: bool)
        ensures
            r == self@.in_flight.contains((language@, page_id)),
    {
        holds_page(&self.in_flight, language, page_id)
    }

    /// Claims the fetching of a page's history. The claim succeeds where nobody else
    /// holds it.
    pub fn try_claim_in_flight(&mut self, language: &str, page_id: u64) -> (r: bool)
        ensures
            r == !old(self)@.in_flight.contains((language@, page_id)),
            final(self)@ == (StateView {
                in_flight: old(self)@.in_flight.insert((language@, page_id)),
                ..old(self)@
            }),
    {
        let ghost before = self@.in_flight;
        if self.is_in_flight(language, page_id) {
            proof {
                assert(before.insert((language@, page_id)) =~= before);
            }
            return false;
        }
        let ghost v = self.in_flight@;
        let name = language.to_owned();
        self.in_flight.push((name, page_id));
        proof {
            lemma_pages_push(v, (name, page_id));
        }
        true
    }

    /// Gives a claim back.
    pub fn release_in_flight(&mut self, language: &str, page_id: u64)
        ensures
            final(self)@ == (StateView {
                in_flight: old(self)@.in_flight.remove((language@, page_id)),
                ..old(self)@
            }),
    {
        let ghost all = self.in_flight@;
        let ghost gone = (language@, page_id);
        let mut kept: Vec<(String, u64)> = Vec::new();
        let mut k: usize = 0;
        proof {
            assert(pages_in(kept@) =~= pages_in(all.take(0)).remove(gone));
        }
        while k < self.in_flight.len()
            invariant
                k <= all.len(),
                all == self.in_flight@,
                gone == (language@, page_id),
                pages_in(kept@) == pages_in(all.take(k as int)).remove(gone),
            decreases all.len() - k,
        {
            let name = self.in_flight[k].0.clone();
            let id: u64 = self.in_flight[k].1;
            let ghost before = kept@;
            proof {
                assert(all.take(k + 1) =~= all.take(k as int).push(all[k as int]));
                lemma_pages_push(all.take(k as int), all[k as int]);
            }
            if !(id == page_id && same_text(name.as_str(), language)) {
                kept.push((name, id));
                proof {
                    lemma_pages_push(before, (name, id));
                    assert(pages_in(kept@) =~= pages_in(all.take(k + 1)).remove(gone));
                }
            } else {
                proof {
                    assert(pages_in(kept@) =~= pages_in(all.take(k + 1)).remove(gone));
                }
            }
            k = k + 1;
        }
        proof {
            assert(all.take(all.len() as int) =~= all);
        }
        self.in_flight = kept;
    }
}

} // verus!
