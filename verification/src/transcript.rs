//! Edit transcripts: what is kept, deleted and inserted on the way from one
//! sequence to another.
use vstd::prelude::*;

verus! {

/// One step of a transcript.
pub enum Step<V> {
    Keep(V),
    Delete(V),
    Insert(V),
}

/// What a step takes from the previous sequence.
pub open spec fn step_prev<V>(s: Step<V>) -> Seq<V> {
    match s {
        Step::Keep(v) => seq![v],
        Step::Delete(v) => seq![v],
        Step::Insert(v) => Seq::empty(),
    }
}

/// What a step contributes to the current sequence.
pub open spec fn step_curr<V>(s: Step<V>) -> Seq<V> {
    match s {
        Step::Keep(v) => seq![v],
        Step::Delete(v) => Seq::empty(),
        Step::Insert(v) => seq![v],
    }
}

/// The previous sequence that a transcript starts from.
pub open spec fn prev_of<V>(t: Seq<Step<V>>) -> Seq<V>
    decreases t.len(),
{
    if t.len() == 0 {
        Seq::empty()
    } else {
        prev_of(t.drop_last()) + step_prev(t.last())
    }
}

/// The current sequence that a transcript ends at.
pub open spec fn curr_of<V>(t: Seq<Step<V>>) -> Seq<V>
    decreases t.len(),
{
    if t.len() == 0 {
        Seq::empty()
    } else {
        curr_of(t.drop_last()) + step_curr(t.last())
    }
}

/// How many steps of a transcript are not kept elements.
pub open spec fn edits<V>(t: Seq<Step<V>>) -> nat
    decreases t.len(),
{
    if t.len() == 0 {
        0
    } else {
        edits(t.drop_last()) + if t.last() is Keep {
            0nat
        } else {
            1
        }
    }
}

/// Keeping `s[lo..hi]`.
pub open spec fn keeps<V>(s: Seq<V>, lo: int, hi: int) -> Seq<Step<V>> {
    s.subrange(lo, hi).map_values(|v: V| Step::Keep(v))
}

/// Deleting `s[lo..hi]`.
pub open spec fn deletes<V>(s: Seq<V>, lo: int, hi: int) -> Seq<Step<V>> {
    s.subrange(lo, hi).map_values(|v: V| Step::Delete(v))
}

/// Inserting `s[lo..hi]`.
pub open spec fn inserts<V>(s: Seq<V>, lo: int, hi: int) -> Seq<Step<V>> {
    s.subrange(lo, hi).map_values(|v: V| Step::Insert(v))
}

/// What two transcripts in a row start from and end at.
pub proof fn lemma_concat<V>(s: Seq<Step<V>>, t: Seq<Step<V>>)
    ensures
        prev_of(s + t) == prev_of(s) + prev_of(t),
        curr_of(s + t) == curr_of(s) + curr_of(t),
        edits(s + t) == edits(s) + edits(t),
    decreases t.len(),
{
    if t.len() == 0 {
        assert(s + t =~= s);
        assert(prev_of(s) + Seq::<V>::empty() =~= prev_of(s));
        assert(curr_of(s) + Seq::<V>::empty() =~= curr_of(s));
    } else {
        assert((s + t).drop_last() =~= s + t.drop_last());
        assert((s + t).last() == t.last());
        lemma_concat(s, t.drop_last());
        assert(prev_of(s + t) =~= prev_of(s) + prev_of(t));
        assert(curr_of(s + t) =~= curr_of(s) + curr_of(t));
    }
}

/// What one step starts from and ends at.
pub proof fn lemma_single<V>(s: Step<V>)
    ensures
        prev_of(seq![s]) == step_prev(s),
        curr_of(seq![s]) == step_curr(s),
        edits(seq![s]) == if s is Keep {
            0nat
        } else {
            1
        },
{
    assert(seq![s].drop_last() =~= Seq::empty());
    assert(seq![s].last() == s);
    reveal_with_fuel(prev_of, 2);
    reveal_with_fuel(curr_of, 2);
    reveal_with_fuel(edits, 2);
    assert(Seq::<V>::empty() + step_prev(s) =~= step_prev(s));
    assert(Seq::<V>::empty() + step_curr(s) =~= step_curr(s));
}

/// What keeping, deleting or inserting a stretch starts from and ends at.
pub proof fn lemma_stretch<V>(s: Seq<V>, lo: int, hi: int)
    requires
        0 <= lo <= hi <= s.len(),
    ensures
        prev_of(keeps(s, lo, hi)) == s.subrange(lo, hi),
        curr_of(keeps(s, lo, hi)) == s.subrange(lo, hi),
        edits(keeps(s, lo, hi)) == 0,
        prev_of(deletes(s, lo, hi)) == s.subrange(lo, hi),
        curr_of(deletes(s, lo, hi)) == Seq::<V>::empty(),
        edits(deletes(s, lo, hi)) == hi - lo,
        prev_of(inserts(s, lo, hi)) == Seq::<V>::empty(),
        curr_of(inserts(s, lo, hi)) == s.subrange(lo, hi),
        edits(inserts(s, lo, hi)) == hi - lo,
    decreases hi - lo,
{
    if lo == hi {
        assert(keeps(s, lo, hi) =~= Seq::empty());
        assert(deletes(s, lo, hi) =~= Seq::empty());
        assert(inserts(s, lo, hi) =~= Seq::empty());
        assert(s.subrange(lo, hi) =~= Seq::empty());
    } else {
        lemma_stretch(s, lo, hi - 1);
        assert(s.subrange(lo, hi) =~= s.subrange(lo, hi - 1).push(s[hi - 1]));
        assert(keeps(s, lo, hi).drop_last() =~= keeps(s, lo, hi - 1));
        assert(deletes(s, lo, hi).drop_last() =~= deletes(s, lo, hi - 1));
        assert(inserts(s, lo, hi).drop_last() =~= inserts(s, lo, hi - 1));
        assert(keeps(s, lo, hi).last() == Step::Keep(s[hi - 1]));
        assert(deletes(s, lo, hi).last() == Step::Delete(s[hi - 1]));
        assert(inserts(s, lo, hi).last() == Step::Insert(s[hi - 1]));
        assert(s.subrange(lo, hi - 1) + seq![s[hi - 1]] =~= s.subrange(lo, hi));
        assert(Seq::<V>::empty() + Seq::<V>::empty() =~= Seq::<V>::empty());
    }
}

} // verus!
