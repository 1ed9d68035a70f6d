//! Lists of ids by the hash they are filed under, in the order in which the
//! hashes were first filed.
use vstd::hash_map::StringHashMap;
use vstd::prelude::*;

verus! {

/// The hashes and their ids, in order.
pub type Entries = Seq<(Seq<char>, Seq<usize>)>;

/// The position of the hash `k`, or -1 where it was never filed.
pub open spec fn position(e: Entries, k: Seq<char>) -> int
    decreases e.len(),
{
    if e.len() == 0 {
        -1
    } else if e.last().0 == k {
        e.len() - 1
    } else {
        position(e.drop_last(), k)
    }
}

/// The ids filed under `k`; none where it was never filed.
pub open spec fn bucket(e: Entries, k: Seq<char>) -> Seq<usize> {
    if position(e, k) >= 0 {
        e[position(e, k)].1
    } else {
        Seq::empty()
    }
}

/// Whether `k` was ever filed.
pub open spec fn has_key(e: Entries, k: Seq<char>) -> bool {
    position(e, k) >= 0
}

/// The entries once `v` has taken the place of what was filed under `k`.
pub open spec fn with_bucket(e: Entries, k: Seq<char>, v: Seq<usize>) -> Entries {
    if has_key(e, k) {
        e.update(position(e, k), (k, v))
    } else {
        e.push((k, v))
    }
}

/// The entries once `id` has been filed last under `k`.
pub open spec fn with_id(e: Entries, k: Seq<char>, id: usize) -> Entries {
    with_bucket(e, k, bucket(e, k).push(id))
}

/// All ids, hash by hash.
pub open spec fn all_ids(e: Entries) -> Seq<usize>
    decreases e.len(),
{
    if e.len() == 0 {
        Seq::empty()
    } else {
        all_ids(e.drop_last()) + e.last().1
    }
}

/// What the position of a hash says.
pub proof fn lemma_position(e: Entries, k: Seq<char>)
    ensures
        -1 <= position(e, k) < e.len(),
        position(e, k) >= 0 ==> e[position(e, k)].0 == k,
        position(e, k) < 0 ==> forall|i: int| 0 <= i < e.len() ==> (#[trigger] e[i]).0 != k,
    decreases e.len(),
{
    if e.len() > 0 && e.last().0 != k {
        lemma_position(e.drop_last(), k);
        assert forall|i: int| position(e, k) < 0 && 0 <= i < e.len() implies (#[trigger] e[i]).0
            != k by {
            if i < e.len() - 1 {
                assert(e.drop_last()[i] == e[i]);
            }
        }
    }
}

/// Ids by hash, with constant-time access to each list.
pub struct BucketMap {
    index: StringHashMap<usize>,
    keys: Vec<String>,
    buckets: Vec<Vec<usize>>,
}

spec fn entries_of(keys: Seq<String>, buckets: Seq<Vec<usize>>) -> Entries {
    Seq::new(keys.len(), |i: int| (keys[i]@, buckets[i]@))
}

spec fn indexed(index: Map<Seq<char>, usize>, keys: Seq<String>) -> bool {
    &&& forall|i: int|
        0 <= i < keys.len() ==> index.contains_key((#[trigger] keys[i])@) && index[keys[i]@] == i
    &&& forall|k: Seq<char>| #[trigger]
        index.contains_key(k) ==> index[k] < keys.len() && keys[index[k] as int]@ == k
}

impl View for BucketMap {
    type V = Entries;

    closed spec fn view(&self) -> Entries {
        entries_of(self.keys@, self.buckets@)
    }
}

proof fn lemma_index(index: Map<Seq<char>, usize>, keys: Seq<String>, buckets: Seq<Vec<usize>>, k: Seq<char>)
    requires
        indexed(index, keys),
        keys.len() == buckets.len(),
    ensures
        index.contains_key(k) <==> has_key(entries_of(keys, buckets), k),
        index.contains_key(k) ==> index[k] == position(entries_of(keys, buckets), k),
{
    let e = entries_of(keys, buckets);
    lemma_position(e, k);
    let p = position(e, k);
    if p >= 0 {
        assert(keys[p]@ == k);
        assert(index.contains_key(keys[p]@));
    }
    if index.contains_key(k) {
        let i = index[k] as int;
        assert(e[i].0 == k);
    }
}

impl BucketMap {
    #[verifier::type_invariant]
    spec fn wf(self) -> bool {
        &&& self.keys@.len() == self.buckets@.len()
        &&& indexed(self.index@, self.keys@)
    }

    /// A map with nothing filed.
    pub fn new() -> (r: BucketMap)
        ensures
            r@ == Seq::<(Seq<char>, Seq<usize>)>::empty(),
    {
        let r = BucketMap { index: StringHashMap::new(), keys: Vec::new(), buckets: Vec::new() };
        proof {
            assert(r@ =~= Seq::<(Seq<char>, Seq<usize>)>::empty());
        }
        r
    }

    /// How many hashes were filed.
    pub fn len(&self) -> (r: usize)
        ensures
            r == self@.len(),
    {
        self.keys.len()
    }

    /// Whether nothing was filed.
    pub fn is_empty(&self) -> (r: bool)
        ensures
            r == (self@.len() == 0),
    {
        self.keys.len() == 0
    }

    /// Whether the hash was ever filed.
    pub fn contains_key(&self, k: &str) -> (r: bool)
        ensures
            r == has_key(self@, k@),
    {
        proof {
            use_type_invariant(self);
            lemma_index(self.index@, self.keys@, self.buckets@, k@);
        }
        self.index.contains_key(k)
    }

    /// The ids filed under `k`.
    pub fn get(&self, k: &str) -> (r: Option<&Vec<usize>>)
        ensures
            match r {
                Some(v) => has_key(self@, k@) && v@ == bucket(self@, k@),
                None => !has_key(self@, k@) && bucket(self@, k@) == Seq::<usize>::empty(),
            },
    {
        proof {
            use_type_invariant(self);
            lemma_index(self.index@, self.keys@, self.buckets@, k@);
        }
        match self.index.get(k) {
            Some(i) => Some(&self.buckets[*i]),
            None => None,
        }
    }

    /// A copy of the ids filed under `k`; empty where it was never filed.
    pub fn ids(&self, k: &str) -> (r: Vec<usize>)
        ensures
            r@ == bucket(self@, k@),
    {
        match self.get(k) {
            Some(v) => copy_ids(v),
            None => Vec::new(),
        }
    }

    /// Files the list `v` under `k`, in place of what was there.
    pub fn insert(&mut self, k: String, v: Vec<usize>)
        ensures
            final(self)@ == with_bucket(old(self)@, k@, v@),
    {
        let mut taken = BucketMap::new();
        std::mem::swap(self, &mut taken);
        proof {
            use_type_invariant(&taken);
        }
        let BucketMap { mut index, mut keys, mut buckets } = taken;
        let ghost e = entries_of(keys@, buckets@);
        let ghost index0 = index@;
        let ghost keys0 = keys@;
        proof {
            lemma_index(index@, keys@, buckets@, k@);
            lemma_position(e, k@);
        }
        let found: Option<usize> = match index.get(k.as_str()) {
            Some(i) => Some(*i),
            None => None,
        };
        match found {
            Some(i) => {
                buckets.set(i, v);
                proof {
                    assert(entries_of(keys@, buckets@) =~= with_bucket(e, k@, v@));
                }
            },
            None => {
                let n: usize = keys.len();
                index.insert(k.clone(), n);
                keys.push(k);
                buckets.push(v);
                proof {
                    assert(entries_of(keys@, buckets@) =~= with_bucket(e, k@, v@));
                    assert forall|i: int| 0 <= i < keys@.len() implies index@.contains_key(
                        (#[trigger] keys@[i])@,
                    ) && index@[keys@[i]@] == i by {
                        if i < n {
                            assert(keys@[i] == keys0[i]);
                            assert(e[i].0 == keys0[i]@);
                        }
                    }
                    assert forall|s: Seq<char>| #[trigger] index@.contains_key(s) implies index@[s]
                        < keys@.len() && keys@[index@[s] as int]@ == s by {
                        if s != k@ {
                            assert(index0.contains_key(s));
                        }
                    }
                }
            },
        }
        *self = BucketMap { index, keys, buckets };
    }

    /// Files `id` last under `k`.
    pub fn push(&mut self, k: &String, id: usize)
        ensures
            final(self)@ == with_id(old(self)@, k@, id),
    {
        let mut v = self.ids(k.as_str());
        v.push(id);
        self.insert(k.clone(), v);
    }

    /// The lists of ids, hash by hash.
    pub fn values(&self) -> (r: &Vec<Vec<usize>>)
        ensures
            r@.len() == self@.len(),
            forall|i: int| 0 <= i < r@.len() ==> (#[trigger] r@[i])@ == self@[i].1,
    {
        proof {
            use_type_invariant(self);
        }
        &self.buckets
    }

    /// All ids, hash by hash.
    pub fn flat_ids(&self) -> (r: Vec<usize>)
        ensures
            r@ == all_ids(self@),
    {
        proof {
            use_type_invariant(self);
        }
        let mut r: Vec<usize> = Vec::new();
        let mut i: usize = 0;
        while i < self.buckets.len()
            invariant
                i <= self.buckets@.len(),
                self@.len() == self.buckets@.len(),
                self@ == entries_of(self.keys@, self.buckets@),
                r@ == all_ids(self@.take(i as int)),
            decreases self.buckets@.len() - i,
        {
            push_ids(&mut r, &self.buckets[i]);
            proof {
                assert(self@.take(i + 1).drop_last() =~= self@.take(i as int));
                assert(self@.take(i + 1).last() == self@[i as int]);
            }
            i = i + 1;
        }
        proof {
            assert(self@.take(i as int) =~= self@);
        }
        r
    }
}

impl Clone for BucketMap {
    fn clone(&self) -> (r: Self)
        ensures
            r@ == self@,
    {
        proof {
            use_type_invariant(self);
        }
        let mut r = BucketMap::new();
        let mut i: usize = 0;
        while i < self.keys.len()
            invariant
                i <= self.keys@.len(),
                self.keys@.len() == self.buckets@.len(),
                indexed(self.index@, self.keys@),
                self@ == entries_of(self.keys@, self.buckets@),
                r@ == self@.take(i as int),
            decreases self.keys@.len() - i,
        {
            proof {
                let t = self@.take(i as int);
                lemma_position(t, self.keys@[i as int]@);
                let p = position(t, self.keys@[i as int]@);
                if p >= 0 {
                    assert(t[p].0 == self.keys@[p]@);
                    assert(self.index@[self.keys@[p]@] == p);
                    assert(self.index@[self.keys@[i as int]@] == i);
                }
                assert(self@.take(i + 1) =~= t.push(self@[i as int]));
            }
            r.insert(self.keys[i].clone(), copy_ids(&self.buckets[i]));
            i = i + 1;
        }
        proof {
            assert(self@.take(i as int) =~= self@);
        }
        r
    }
}

impl Default for BucketMap {
    fn default() -> (r: Self)
        ensures
            r@ == Seq::<(Seq<char>, Seq<usize>)>::empty(),
    {
        BucketMap::new()
    }
}

/// Appends the ids of `v` to `r`.
pub fn push_ids(r: &mut Vec<usize>, v: &Vec<usize>)
    ensures
        final(r)@ == old(r)@ + v@,
{
    let mut i: usize = 0;
    proof {
        assert(r@ + v@.take(0) =~= r@);
    }
    while i < v.len()
        invariant
            i <= v@.len(),
            r@ == old(r)@ + v@.take(i as int),
        decreases v@.len() - i,
    {
        r.push(v[i]);
        proof {
            assert(v@.take(i + 1) =~= v@.take(i as int).push(v@[i as int]));
        }
        i = i + 1;
    }
    proof {
        assert(v@.take(i as int) =~= v@);
    }
}

/// A copy of a list of ids.
pub fn copy_ids(v: &Vec<usize>) -> (r: Vec<usize>)
    ensures
        r@ == v@,
{
    let mut r: Vec<usize> = Vec::new();
    push_ids(&mut r, v);
    proof {
        assert(Seq::<usize>::empty() + v@ =~= v@);
    }
    r
}

} // verus!
