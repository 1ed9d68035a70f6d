//! Finding a page by its title.
use vstd::hash_map::StringHashMap;
use vstd::prelude::*;

verus! {

/// The ids of pages by title. Titles are written with underscores.
pub struct TitleIndex {
    by_title: StringHashMap<u64>,
}

impl View for TitleIndex {
    type V = Map<Seq<char>, u64>;

    closed spec fn view(&self) -> Map<Seq<char>, u64> {
        self.by_title@
    }
}

/// The index once the entries from the `k`th on are in it. Of two with one title the
/// later counts.
pub open spec fn indexed(
    m: Map<Seq<char>, u64>,
    entries: Seq<(String, u64)>,
    k: int,
) -> Map<Seq<char>, u64>
    decreases entries.len() - k,
{
    if k < 0 || k >= entries.len() {
        m
    } else {
        indexed(m.insert(entries[k].0@, entries[k].1), entries, k + 1)
    }
}

impl TitleIndex {
    /// An index without a page.
    pub fn empty() -> (r: Self)
        ensures
            r@ == Map::<Seq<char>, u64>::empty(),
    {
        TitleIndex { by_title: StringHashMap::new() }
    }

    /// The index of the titles and pages that were found.
    pub fn build(entries: &Vec<(String, u64)>) -> (r: Self)
        ensures
            r@ == indexed(Map::empty(), entries@, 0),
    {
        let mut index = TitleIndex::empty();
        let mut k: usize = 0;
        while k < entries.len()
            invariant
                k <= entries@.len(),
                indexed(index@, entries@, k as int) == indexed(Map::empty(), entries@, 0),
            decreases entries@.len() - k,
        {
            index.insert(entries[k].0.as_str(), entries[k].1);
            k = k + 1;
        }
        index
    }

    /// Puts a page into the index, in place of another of that title.
    pub fn insert(&mut self, title: &str, page_id: u64)
        ensures
            final(self)@ == old(self)@.insert(title@, page_id),
    {
        self.by_title.insert(title.to_owned(), page_id);
    }

    /// The page of a title.
    pub fn lookup(&self, title: &str) -> (r: Option<u64>)
        ensures
            r == (if self@.contains_key(title@) {
                Some(self@[title@])
            } else {
                None
            }),
    {
        match self.by_title.get(title) {
            Some(id) => Some(*id),
            None => None,
        }
    }

    /// The number of titles.
    pub fn len(&self) -> (r: usize)
        ensures
            r == self@.dom().len(),
    {
        self.by_title.len()
    }

    /// Whether there is no title.
    pub fn is_empty(&self) -> (r: bool)
        ensures
            r == (self@.dom().len() == 0),
    {
        self.by_title.len() == 0
    }
}

} // verus!
