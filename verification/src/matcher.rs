//! Contiguous-block sequence matching (Ratcliff/Obershelp).
//!
//! [`SequenceMatcher`] finds the longest block that two sequences share, then
//! works on what lies left and right of it.
use std::collections::HashMap;
use vstd::prelude::*;

verus! {

broadcast use vstd::std_specs::hash::group_hash_axioms;

/// What a matcher compares: values told apart by their view alone.
pub trait Element: View + Sized {
    /// Whether two values have the same view.
    fn same(&self, other: &Self) -> (r: bool)
        ensures
            r == (self@ == other@),
    ;
}

impl Element for char {
    fn same(&self, other: &Self) -> (r: bool) {
        *self == *other
    }
}

impl Element for u32 {
    fn same(&self, other: &Self) -> (r: bool) {
        *self == *other
    }
}

impl Element for String {
    fn same(&self, other: &Self) -> (r: bool) {
        *self == *other
    }
}

/// The views of a list of elements.
pub open spec fn views<T: View>(v: Seq<T>) -> Seq<T::V> {
    v.map_values(|t: T| t@)
}

/// One block that the two sequences share:
/// `a[a_start..a_start + size] == b[b_start..b_start + size]`.
#[derive(Debug, Clone, Copy, PartialEq, Eq, Hash, Structural)]
pub struct Match {
    pub a_start: usize,
    pub b_start: usize,
    pub size: usize,
}

impl View for Match {
    type V = (int, int, int);

    open spec fn view(&self) -> (int, int, int) {
        (self.a_start as int, self.b_start as int, self.size as int)
    }
}

/// How often `x` occurs in `s`.
pub open spec fn count_of<V>(s: Seq<V>, x: V) -> nat
    decreases s.len(),
{
    if s.len() == 0 {
        0
    } else {
        count_of(s.drop_last(), x) + if s.last() == x {
            1nat
        } else {
            0
        }
    }
}

/// Whether `x` is so frequent in `b` that no block may start from it: `b` has
/// at least 200 elements and more than one in a hundred of them, plus one, is
/// `x`.
pub open spec fn popular<V>(b: Seq<V>, autojunk: bool, x: V) -> bool {
    autojunk && b.len() >= 200 && count_of(b, x) > b.len() / 100 + 1
}

/// The parts of the two sequences in which a block is looked for.
pub struct Window {
    pub alo: int,
    pub ahi: int,
    pub blo: int,
    pub bhi: int,
}

/// Whether `a[i]` and `b[j]` are equal and not too frequent in `b`.
pub open spec fn anchored<V>(a: Seq<V>, b: Seq<V>, autojunk: bool, i: int, j: int) -> bool {
    a[i] == b[j] && !popular(b, autojunk, b[j])
}

/// Whether `m` is a non-empty block of anchored pairs inside the window.
pub open spec fn is_run<V>(
    a: Seq<V>,
    b: Seq<V>,
    autojunk: bool,
    w: Window,
    m: (int, int, int),
) -> bool {
    &&& m.2 > 0
    &&& w.alo <= m.0
    &&& m.0 + m.2 <= w.ahi
    &&& w.blo <= m.1
    &&& m.1 + m.2 <= w.bhi
    &&& forall|t: int| 0 <= t < m.2 ==> #[trigger] anchored(a, b, autojunk, m.0 + t, m.1 + t)
}

/// Whether `m` is at least as long as `o` and, where both are equally long,
/// does not start later: first in `a`, then in `b`.
pub open spec fn no_worse(m: (int, int, int), o: (int, int, int)) -> bool {
    m.2 > o.2 || (m.2 == o.2 && (m.0 < o.0 || (m.0 == o.0 && m.1 <= o.1)))
}

/// Whether `m` is the longest run in the window, the earliest of the longest.
pub open spec fn is_best_run<V>(
    a: Seq<V>,
    b: Seq<V>,
    autojunk: bool,
    w: Window,
    m: (int, int, int),
) -> bool {
    &&& is_run(a, b, autojunk, w, m)
    &&& forall|o: (int, int, int)| #[trigger] is_run(a, b, autojunk, w, o) ==> no_worse(m, o)
}

/// The longest run in the window, the earliest of the longest; an empty block at
/// the window's start where there is none.
pub open spec fn best_run<V>(a: Seq<V>, b: Seq<V>, autojunk: bool, w: Window) -> (int, int, int) {
    if exists|m: (int, int, int)| is_best_run(a, b, autojunk, w, m) {
        choose|m: (int, int, int)| is_best_run(a, b, autojunk, w, m)
    } else {
        (w.alo, w.blo, 0)
    }
}

/// How many equal pairs end right before `(i, j)`, no further back than the
/// window's start.
pub open spec fn grow_left<V>(a: Seq<V>, b: Seq<V>, w: Window, i: int, j: int) -> nat
    decreases i - w.alo,
{
    if i > w.alo && j > w.blo && a[i - 1] == b[j - 1] {
        grow_left(a, b, w, i - 1, j - 1) + 1
    } else {
        0
    }
}

/// How many equal pairs start at `(i, j)`, no further on than the window's end.
pub open spec fn grow_right<V>(a: Seq<V>, b: Seq<V>, w: Window, i: int, j: int) -> nat
    decreases w.ahi - i,
{
    if i < w.ahi && j < w.bhi && a[i] == b[j] {
        grow_right(a, b, w, i + 1, j + 1) + 1
    } else {
        0
    }
}

/// The block that a search of the window finds: the best run, grown on both
/// sides by whatever equal pairs, frequent or not, adjoin it.
pub open spec fn longest_match<V>(a: Seq<V>, b: Seq<V>, autojunk: bool, w: Window) -> (
    int,
    int,
    int,
) {
    let m = best_run(a, b, autojunk, w);
    let l = grow_left(a, b, w, m.0, m.1);
    let r = grow_right(a, b, w, m.0 + m.2, m.1 + m.2);
    (m.0 - l, m.1 - l, l + m.2 + r)
}

/// The length of the longest run that ends with the pair `(i, j)`.
spec fn run_to<V>(a: Seq<V>, b: Seq<V>, autojunk: bool, w: Window, i: int, j: int) -> nat
    decreases i - w.alo + 1,
{
    if i < w.alo || j < w.blo || !anchored(a, b, autojunk, i, j) {
        0
    } else {
        run_to(a, b, autojunk, w, i - 1, j - 1) + 1
    }
}

proof fn lemma_run_to_is_run<V>(a: Seq<V>, b: Seq<V>, aj: bool, w: Window, i: int, j: int)
    requires
        i < w.ahi,
        j < w.bhi,
        run_to(a, b, aj, w, i, j) > 0,
    ensures
        ({
            let k = run_to(a, b, aj, w, i, j) as int;
            is_run(a, b, aj, w, (i + 1 - k, j + 1 - k, k))
        }),
    decreases i - w.alo + 1,
{
    let k = run_to(a, b, aj, w, i, j) as int;
    let k0 = run_to(a, b, aj, w, i - 1, j - 1) as int;
    assert(k == k0 + 1);
    if k0 > 0 {
        lemma_run_to_is_run(a, b, aj, w, i - 1, j - 1);
        let m0 = (i - k0, j - k0, k0);
        assert(is_run(a, b, aj, w, m0));
    }
    let m = (i + 1 - k, j + 1 - k, k);
    assert forall|t: int| 0 <= t < m.2 implies #[trigger] anchored(a, b, aj, m.0 + t, m.1 + t) by {
        if t == k - 1 {
            assert(m.0 + t == i && m.1 + t == j);
        } else {
            let m0 = (i - k0, j - k0, k0);
            assert(anchored(a, b, aj, m0.0 + t, m0.1 + t));
        }
    }
}

proof fn lemma_run_to_covers<V>(
    a: Seq<V>,
    b: Seq<V>,
    aj: bool,
    w: Window,
    m: (int, int, int),
    k: int,
)
    requires
        is_run(a, b, aj, w, m),
        0 < k <= m.2,
    ensures
        run_to(a, b, aj, w, m.0 + k - 1, m.1 + k - 1) >= k,
    decreases k,
{
    assert(anchored(a, b, aj, m.0 + (k - 1), m.1 + (k - 1)));
    if k > 1 {
        lemma_run_to_covers(a, b, aj, w, m, k - 1);
    }
}

proof fn lemma_best_run_unique<V>(a: Seq<V>, b: Seq<V>, aj: bool, w: Window, m: (int, int, int))
    requires
        is_best_run(a, b, aj, w, m),
    ensures
        best_run(a, b, aj, w) == m,
{
    let o = best_run(a, b, aj, w);
    assert(is_best_run(a, b, aj, w, o));
    assert(is_run(a, b, aj, w, o));
    assert(no_worse(m, o) && no_worse(o, m));
}

/// The positions of one value in `b`, ascending; none where it is too frequent.
spec fn positions_ok<V>(l: Seq<usize>, b: Seq<V>, aj: bool, x: V) -> bool {
    &&& forall|p: int, q: int| 0 <= p < q < l.len() ==> l[p] < l[q]
    &&& forall|p: int| 0 <= p < l.len() ==> #[trigger] l[p] < b.len() && b[l[p] as int] == x
        && !popular(b, aj, x)
    &&& !popular(b, aj, x) ==> forall|j: int|
        0 <= j < b.len() && #[trigger] b[j] == x ==> l.contains(j as usize)
}

/// Where each element of `a` occurs in `b`: `lists[rows[i]]` holds the
/// positions of `a[i]`.
struct Index {
    lists: Vec<Vec<usize>>,
    rows: Vec<usize>,
}

impl Index {
    spec fn covers<V>(&self, a: Seq<V>, b: Seq<V>, aj: bool) -> bool {
        &&& self.rows@.len() == a.len()
        &&& forall|i: int|
            0 <= i < a.len() ==> (#[trigger] self.rows@[i]) < self.lists@.len() && positions_ok(
                self.lists@[self.rows@[i] as int]@,
                b,
                aj,
                a[i],
            )
    }
}

/// The positions of `x` among the first `n` elements of `b`, ascending and
/// complete.
spec fn lists_all<V>(l: Seq<usize>, b: Seq<V>, n: int, x: V) -> bool {
    &&& forall|p: int, q: int| 0 <= p < q < l.len() ==> l[p] < l[q]
    &&& forall|p: int| 0 <= p < l.len() ==> #[trigger] l[p] < n && b[l[p] as int] == x
    &&& forall|j: int| 0 <= j < n && #[trigger] b[j] == x ==> l.contains(j as usize)
    &&& l.len() == count_of(b.take(n), x)
}

proof fn lemma_lists_all_step<V>(l: Seq<usize>, b: Seq<V>, n: int, x: V)
    requires
        lists_all(l, b, n, x),
        0 <= n < b.len(),
        b.len() <= usize::MAX,
    ensures
        b[n] == x ==> lists_all(l.push(n as usize), b, n + 1, x),
        b[n] != x ==> lists_all(l, b, n + 1, x),
{
    assert(b.take(n + 1).drop_last() =~= b.take(n));
    assert(b.take(n + 1).last() == b[n]);
    if b[n] == x {
        let m = l.push(n as usize);
        assert forall|j: int| 0 <= j < n + 1 && #[trigger] b[j] == x implies m.contains(
            j as usize,
        ) by {
            if j < n {
                assert(l.contains(j as usize));
                let p = choose|p: int| 0 <= p < l.len() && l[p] == j as usize;
                assert(m[p] == j as usize);
            } else {
                assert(m[l.len() as int] == n as usize);
            }
        }
    }
}

proof fn lemma_lists_none<V>(b: Seq<V>, n: int, x: V)
    requires
        0 <= n <= b.len(),
        forall|j: int| 0 <= j < n ==> b[j] != x,
    ensures
        lists_all(Seq::<usize>::empty(), b, n, x),
    decreases n,
{
    if n == 0 {
        assert(b.take(0).len() == 0);
    } else {
        lemma_lists_none(b, n - 1, x);
        assert(b.take(n).drop_last() =~= b.take(n - 1));
        assert(b.take(n).last() == b[n - 1]);
    }
}

/// The distinct elements of `b`, each with the list of its positions.
struct Classes {
    /// One position of each distinct element.
    heads: Vec<usize>,
    lists: Vec<Vec<usize>>,
}

impl Classes {
    spec fn covers<V>(&self, b: Seq<V>, n: int) -> bool {
        &&& self.heads@.len() == self.lists@.len()
        &&& forall|c: int|
            0 <= c < self.heads@.len() ==> (#[trigger] self.heads@[c]) < n && lists_all(
                self.lists@[c]@,
                b,
                n,
                b[self.heads@[c] as int],
            )
        &&& forall|c: int, d: int|
            0 <= c < d < self.heads@.len() ==> b[self.heads@[c] as int] != b[self.heads@[d] as int]
        &&& forall|j: int| 0 <= j < n ==> self.has_class(b, #[trigger] b[j])
    }

    spec fn has_class<V>(&self, b: Seq<V>, x: V) -> bool {
        exists|c: int| 0 <= c < self.heads@.len() && #[trigger] b[self.heads@[c] as int] == x
    }

    /// The class of `x`, if it occurs in `b`.
    fn class_of<T: Element>(&self, b: &Vec<T>, n: Ghost<int>, x: &T) -> (r: Option<usize>)
        requires
            self.covers(views(b@), n@),
            n@ <= b@.len(),
        ensures
            match r {
                Some(c) => c < self.heads@.len() && views(b@)[self.heads@[c as int] as int] == x@,
                None => forall|j: int| 0 <= j < n@ ==> views(b@)[j] != x@,
            },
    {
        let mut c: usize = 0;
        while c < self.heads.len()
            invariant
                c <= self.heads@.len(),
                self.covers(views(b@), n@),
                n@ <= b@.len(),
                forall|d: int| 0 <= d < c ==> views(b@)[self.heads@[d] as int] != x@,
            decreases self.heads@.len() - c,
        {
            if b[self.heads[c]].same(x) {
                return Some(c);
            }
            c = c + 1;
        }
        proof {
            assert forall|j: int| 0 <= j < n@ implies views(b@)[j] != x@ by {
                assert(self.has_class(views(b@), views(b@)[j]));
            }
        }
        None
    }

    fn build<T: Element>(b: &Vec<T>) -> (r: Classes)
        ensures
            r.covers(views(b@), b@.len() as int),
    {
        let ghost bv = views(b@);
        let mut r = Classes { heads: Vec::new(), lists: Vec::new() };
        let mut j: usize = 0;
        while j < b.len()
            invariant
                j <= b@.len(),
                bv == views(b@),
                r.covers(bv, j as int),
            decreases b@.len() - j,
        {
            let ghost r0 = r;
            let found = r.class_of(b, Ghost(j as int), &b[j]);
            match found {
                Some(c) => {
                    let mut list: Vec<usize> = Vec::new();
                    std::mem::swap(&mut list, &mut r.lists[c]);
                    list.push(j);
                    r.lists.set(c, list);
                    proof {
                        assert forall|d: int| 0 <= d < r.heads@.len() implies (
                        #[trigger] r.heads@[d]) < j + 1 && lists_all(
                            r.lists@[d]@,
                            bv,
                            j + 1,
                            bv[r.heads@[d] as int],
                        ) by {
                            assert(r.heads@[d] == r0.heads@[d]);
                            lemma_lists_all_step(
                                r0.lists@[d]@,
                                bv,
                                j as int,
                                bv[r0.heads@[d] as int],
                            );
                            if d == c {
                                assert(r.lists@[d]@ =~= r0.lists@[d]@.push(j));
                            } else {
                                assert(r.lists@[d] == r0.lists@[d]);
                                if d < c {
                                    assert(bv[r0.heads@[d] as int] != bv[r0.heads@[c as int] as int]);
                                } else {
                                    assert(bv[r0.heads@[c as int] as int] != bv[r0.heads@[d] as int]);
                                }
                            }
                        }
                        assert forall|k: int| 0 <= k < j + 1 implies r.has_class(
                            bv,
                            #[trigger] bv[k],
                        ) by {
                            if k == j {
                                assert(bv[r.heads@[c as int] as int] == bv[k]);
                            } else {
                                let d = choose|d: int|
                                    0 <= d < r0.heads@.len() && #[trigger] bv[r0.heads@[d] as int]
                                        == bv[k];
                                assert(bv[r.heads@[d] as int] == bv[k]);
                            }
                        }
                    }
                },
                None => {
                    let mut list: Vec<usize> = Vec::new();
                    list.push(j);
                    r.heads.push(j);
                    r.lists.push(list);
                    proof {
                        let n = r0.heads@.len() as int;
                        lemma_lists_none(bv, j as int, bv[j as int]);
                        lemma_lists_all_step(Seq::<usize>::empty(), bv, j as int, bv[j as int]);
                        assert(list@ =~= Seq::<usize>::empty().push(j));
                        assert forall|d: int| 0 <= d < r.heads@.len() implies (
                        #[trigger] r.heads@[d]) < j + 1 && lists_all(
                            r.lists@[d]@,
                            bv,
                            j + 1,
                            bv[r.heads@[d] as int],
                        ) by {
                            if d < n {
                                assert(r.heads@[d] == r0.heads@[d]);
                                assert(r.lists@[d] == r0.lists@[d]);
                                lemma_lists_all_step(
                                    r0.lists@[d]@,
                                    bv,
                                    j as int,
                                    bv[r0.heads@[d] as int],
                                );
                            }
                        }
                        assert forall|k: int| 0 <= k < j + 1 implies r.has_class(
                            bv,
                            #[trigger] bv[k],
                        ) by {
                            if k == j {
                                assert(bv[r.heads@[n] as int] == bv[k]);
                            } else {
                                let d = choose|d: int|
                                    0 <= d < r0.heads@.len() && #[trigger] bv[r0.heads@[d] as int]
                                        == bv[k];
                                assert(bv[r.heads@[d] as int] == bv[k]);
                            }
                        }
                    }
                },
            }
            j = j + 1;
        }
        r
    }
}

fn build_index<T: Element>(a: &Vec<T>, b: &Vec<T>, autojunk: bool) -> (r: Index)
    ensures
        r.covers(views(a@), views(b@), autojunk),
{
    let ghost av = views(a@);
    let ghost bv = views(b@);
    let classes = Classes::build(b);
    let n: usize = b.len();
    let limited = autojunk && n >= 200;
    let limit: usize = n / 100 + 1;
    let mut rows: Vec<usize> = Vec::new();
    let none: usize = classes.lists.len();
    let mut i: usize = 0;
    while i < a.len()
        invariant
            i <= a@.len(),
            n == b@.len(),
            limited == (autojunk && n >= 200),
            limit == n / 100 + 1,
            none == classes.lists@.len(),
            av == views(a@),
            bv == views(b@),
            classes.covers(bv, n as int),
            rows@.len() == i,
            forall|k: int| #![trigger rows@[k]]
                0 <= k < i ==> rows@[k] <= none && (rows@[k] < none ==> positions_ok(
                    classes.lists@[rows@[k] as int]@,
                    bv,
                    autojunk,
                    av[k],
                )) && (rows@[k] == none ==> positions_ok(
                    Seq::<usize>::empty(),
                    bv,
                    autojunk,
                    av[k],
                )),
        decreases a@.len() - i,
    {
        let found = classes.class_of(b, Ghost(n as int), &a[i]);
        proof {
            assert(bv.take(n as int) =~= bv);
        }
        match found {
            Some(c) => {
                if limited && classes.lists[c].len() > limit {
                    rows.push(none);
                } else {
                    rows.push(c);
                }
            },
            None => {
                rows.push(none);
            },
        }
        i = i + 1;
    }
    let mut lists = classes.lists;
    let ghost before = lists@;
    lists.push(Vec::new());
    let r = Index { lists, rows };
    proof {
        assert forall|k: int| 0 <= k < av.len() implies (#[trigger] r.rows@[k]) < r.lists@.len()
            && positions_ok(r.lists@[r.rows@[k] as int]@, bv, autojunk, av[k]) by {
            if r.rows@[k] < none {
                assert(r.lists@[r.rows@[k] as int] == before[r.rows@[k] as int]);
            } else {
                assert(r.lists@[none as int]@ =~= Seq::<usize>::empty());
            }
        }
    }
    r
}

/// How a segment of one sequence becomes a segment of the other.
#[derive(Debug, Clone, Copy, PartialEq, Eq, Structural)]
pub enum OpTag {
    Equal,
    Delete,
    Insert,
    Replace,
}

/// One segment of the comparison: `a[i1..i2]` becomes `b[j1..j2]`.
#[derive(Debug, Clone, Copy, PartialEq, Eq, Structural)]
pub struct OpCode {
    pub tag: OpTag,
    pub i1: usize,
    pub i2: usize,
    pub j1: usize,
    pub j2: usize,
}

impl View for OpCode {
    type V = (OpTag, int, int, int, int);

    open spec fn view(&self) -> (OpTag, int, int, int, int) {
        (self.tag, self.i1 as int, self.i2 as int, self.j1 as int, self.j2 as int)
    }
}

/// The window over two whole sequences.
pub open spec fn whole<V>(a: Seq<V>, b: Seq<V>) -> Window {
    Window { alo: 0, ahi: a.len() as int, blo: 0, bhi: b.len() as int }
}

/// Whether the block `m` lies in the window.
pub open spec fn inside(w: Window, m: (int, int, int)) -> bool {
    &&& 0 <= m.2
    &&& w.alo <= m.0
    &&& m.0 + m.2 <= w.ahi
    &&& w.blo <= m.1
    &&& m.1 + m.2 <= w.bhi
}

/// The part of the window before the block `m`.
pub open spec fn before(w: Window, m: (int, int, int)) -> Window {
    Window { alo: w.alo, ahi: m.0, blo: w.blo, bhi: m.1 }
}

/// The part of the window after the block `m`.
pub open spec fn after(w: Window, m: (int, int, int)) -> Window {
    Window { alo: m.0 + m.2, ahi: w.ahi, blo: m.1 + m.2, bhi: w.bhi }
}

/// Whether the window is non-empty on both sides.
pub open spec fn open_window(w: Window) -> bool {
    w.alo < w.ahi && w.blo < w.bhi
}

/// The blocks that the window's two parts share, in order: the longest match,
/// those before it and those after it.
pub open spec fn blocks_in<V>(a: Seq<V>, b: Seq<V>, autojunk: bool, w: Window) -> Seq<
    (int, int, int),
>
    decreases w.ahi - w.alo,
{
    let m = longest_match(a, b, autojunk, w);
    if m.2 <= 0 || !inside(w, m) {
        Seq::empty()
    } else {
        let left = if open_window(before(w, m)) {
            blocks_in(a, b, autojunk, before(w, m))
        } else {
            Seq::empty()
        };
        let right = if open_window(after(w, m)) {
            blocks_in(a, b, autojunk, after(w, m))
        } else {
            Seq::empty()
        };
        left + seq![m] + right
    }
}

/// `cur` and the blocks from `k` on, with blocks that adjoin in both sequences
/// made one.
pub open spec fn merged_from(bs: Seq<(int, int, int)>, k: int, cur: (int, int, int)) -> Seq<
    (int, int, int),
>
    decreases bs.len() - k,
{
    let head = if cur.2 > 0 {
        seq![cur]
    } else {
        Seq::empty()
    };
    if k < 0 || k >= bs.len() {
        head
    } else if cur.0 + cur.2 == bs[k].0 && cur.1 + cur.2 == bs[k].1 {
        merged_from(bs, k + 1, (cur.0, cur.1, cur.2 + bs[k].2))
    } else {
        head + merged_from(bs, k + 1, bs[k])
    }
}

/// The blocks that two sequences share, in order, none adjoining the next, and
/// an empty block at the two ends.
pub open spec fn matching_blocks<V>(a: Seq<V>, b: Seq<V>, autojunk: bool) -> Seq<(int, int, int)> {
    merged_from(blocks_in(a, b, autojunk, whole(a, b)), 0, (0, 0, 0)).push(
        (a.len() as int, b.len() as int, 0),
    )
}

/// The segment between the position reached, `(i, j)`, and the block `m`.
pub open spec fn gap_code(i: int, j: int, m: (int, int, int)) -> Seq<(OpTag, int, int, int, int)> {
    if i < m.0 && j < m.1 {
        seq![(OpTag::Replace, i, m.0, j, m.1)]
    } else if i < m.0 {
        seq![(OpTag::Delete, i, m.0, j, m.1)]
    } else if j < m.1 {
        seq![(OpTag::Insert, i, m.0, j, m.1)]
    } else {
        Seq::empty()
    }
}

/// The segment of the block `m` itself.
pub open spec fn block_code(m: (int, int, int)) -> Seq<(OpTag, int, int, int, int)> {
    if m.2 > 0 {
        seq![(OpTag::Equal, m.0, m.0 + m.2, m.1, m.1 + m.2)]
    } else {
        Seq::empty()
    }
}

/// The segments from position `(i, j)` on, given the blocks from `k` on.
pub open spec fn opcodes_from(bs: Seq<(int, int, int)>, k: int, i: int, j: int) -> Seq<
    (OpTag, int, int, int, int),
>
    decreases bs.len() - k,
{
    if k < 0 || k >= bs.len() {
        Seq::empty()
    } else {
        let m = bs[k];
        gap_code(i, j, m) + block_code(m) + opcodes_from(bs, k + 1, m.0 + m.2, m.1 + m.2)
    }
}

/// The segments that turn `a` into `b`.
pub open spec fn opcodes<V>(a: Seq<V>, b: Seq<V>, autojunk: bool) -> Seq<
    (OpTag, int, int, int, int),
> {
    opcodes_from(matching_blocks(a, b, autojunk), 0, 0, 0)
}

/// The total length of the blocks `bs`.
pub open spec fn total_size(bs: Seq<(int, int, int)>) -> int
    decreases bs.len(),
{
    if bs.len() == 0 {
        0
    } else {
        total_size(bs.drop_last()) + bs.last().2
    }
}

/// How many elements of `a` find a partner in `b` when order is ignored: an
/// element counts while fewer equal ones came before it than `b` holds.
pub open spec fn common_count<V>(a: Seq<V>, b: Seq<V>) -> nat
    decreases a.len(),
{
    if a.len() == 0 {
        0
    } else {
        common_count(a.drop_last(), b) + if count_of(a.drop_last(), a.last()) < count_of(
            b,
            a.last(),
        ) {
            1nat
        } else {
            0
        }
    }
}

proof fn lemma_grow_bounds<V>(a: Seq<V>, b: Seq<V>, w: Window, i: int, j: int)
    ensures
        grow_left(a, b, w, i, j) <= if i > w.alo { i - w.alo } else { 0 },
        grow_left(a, b, w, i, j) <= if j > w.blo { j - w.blo } else { 0 },
    decreases i - w.alo,
{
    if i > w.alo && j > w.blo && a[i - 1] == b[j - 1] {
        lemma_grow_bounds(a, b, w, i - 1, j - 1);
    }
}

proof fn lemma_grow_right_bounds<V>(a: Seq<V>, b: Seq<V>, w: Window, i: int, j: int)
    ensures
        grow_right(a, b, w, i, j) <= if i < w.ahi { w.ahi - i } else { 0 },
        grow_right(a, b, w, i, j) <= if j < w.bhi { w.bhi - j } else { 0 },
    decreases w.ahi - i,
{
    if i < w.ahi && j < w.bhi && a[i] == b[j] {
        lemma_grow_right_bounds(a, b, w, i + 1, j + 1);
    }
}

proof fn lemma_longest_inside<V>(a: Seq<V>, b: Seq<V>, aj: bool, w: Window)
    requires
        w.alo <= w.ahi,
        w.blo <= w.bhi,
    ensures
        inside(w, longest_match(a, b, aj, w)),
{
    let m = best_run(a, b, aj, w);
    if exists|m: (int, int, int)| is_best_run(a, b, aj, w, m) {
        assert(is_best_run(a, b, aj, w, m));
    }
    lemma_grow_bounds(a, b, w, m.0, m.1);
    lemma_grow_right_bounds(a, b, w, m.0 + m.2, m.1 + m.2);
}

/// Compares two sequences. The parts that do not depend on which sequences are
/// compared next are kept between calls.
pub struct SequenceMatcher<T: Element> {
    a: Vec<T>,
    b: Vec<T>,
    autojunk: bool,
    index: Option<Index>,
    matching_blocks: Option<Vec<Match>>,
    opcodes: Option<Vec<OpCode>>,
}

impl<T: Element> SequenceMatcher<T> {
    /// The first sequence.
    pub closed spec fn seq1(&self) -> Seq<T::V> {
        views(self.a@)
    }

    /// The second sequence.
    pub closed spec fn seq2(&self) -> Seq<T::V> {
        views(self.b@)
    }

    /// Whether very frequent elements are kept from starting a block.
    pub closed spec fn junks(&self) -> bool {
        self.autojunk
    }

    /// What is kept between calls belongs to the sequences held.
    pub closed spec fn wf(&self) -> bool {
        &&& match self.index {
            Some(ix) => ix.covers(self.seq1(), self.seq2(), self.autojunk),
            None => true,
        }
        &&& match self.matching_blocks {
            Some(v) => views(v@) == matching_blocks(self.seq1(), self.seq2(), self.autojunk),
            None => true,
        }
        &&& match self.opcodes {
            Some(v) => views(v@) == opcodes(self.seq1(), self.seq2(), self.autojunk),
            None => true,
        }
    }

    /// An empty matcher.
    pub fn new(autojunk: bool) -> (r: Self)
        ensures
            r.wf(),
            r.seq1() == Seq::<T::V>::empty(),
            r.seq2() == Seq::<T::V>::empty(),
            r.junks() == autojunk,
    {
        let r = Self {
            a: Vec::new(),
            b: Vec::new(),
            autojunk,
            index: None,
            matching_blocks: None,
            opcodes: None,
        };
        proof {
            assert(r.seq1() =~= Seq::<T::V>::empty());
            assert(r.seq2() =~= Seq::<T::V>::empty());
        }
        r
    }

    /// Sets both sequences.
    pub fn set_seqs(&mut self, a: Vec<T>, b: Vec<T>)
        requires
            old(self).wf(),
        ensures
            final(self).wf(),
            final(self).seq1() == views(a@),
            final(self).seq2() == views(b@),
            final(self).junks() == old(self).junks(),
    {
        self.set_seq2(b);
        self.set_seq1(a);
    }

    /// Replaces the first sequence.
    pub fn set_seq1(&mut self, a: Vec<T>)
        requires
            old(self).wf(),
        ensures
            final(self).wf(),
            final(self).seq1() == views(a@),
            final(self).seq2() == old(self).seq2(),
            final(self).junks() == old(self).junks(),
    {
        self.a = a;
        self.index = None;
        self.matching_blocks = None;
        self.opcodes = None;
    }

    /// Replaces the second sequence.
    pub fn set_seq2(&mut self, b: Vec<T>)
        requires
            old(self).wf(),
        ensures
            final(self).wf(),
            final(self).seq1() == old(self).seq1(),
            final(self).seq2() == views(b@),
            final(self).junks() == old(self).junks(),
    {
        self.b = b;
        self.index = None;
        self.matching_blocks = None;
        self.opcodes = None;
    }

    fn chain_b(&mut self)
        requires
            old(self).wf(),
        ensures
            final(self).wf(),
            final(self).index is Some,
            final(self).a == old(self).a,
            final(self).b == old(self).b,
            final(self).autojunk == old(self).autojunk,
            final(self).matching_blocks == old(self).matching_blocks,
            final(self).opcodes == old(self).opcodes,
    {
        if self.index.is_none() {
            self.index = Some(build_index(&self.a, &self.b, self.autojunk));
        }
    }
}

proof fn lemma_run_to_bounds<V>(a: Seq<V>, b: Seq<V>, aj: bool, w: Window, i: int, j: int)
    ensures
        run_to(a, b, aj, w, i, j) <= if i >= w.alo { i - w.alo + 1 } else { 0 },
        run_to(a, b, aj, w, i, j) <= if j >= w.blo { j - w.blo + 1 } else { 0 },
    decreases i - w.alo + 1,
{
    if i < w.alo || j < w.blo || !anchored(a, b, aj, i, j) {
    } else {
        lemma_run_to_bounds(a, b, aj, w, i - 1, j - 1);
    }
}

/// The lengths of the runs that end in row `i`, by the position in `b`.
spec fn row_ok<V>(
    row: Map<usize, usize>,
    a: Seq<V>,
    b: Seq<V>,
    aj: bool,
    w: Window,
    i: int,
    limit: int,
) -> bool {
    forall|j: usize| #![trigger row.contains_key(j)]
        (row.contains_key(j) <==> (j < limit && j < w.bhi && run_to(a, b, aj, w, i, j as int) > 0))
            && (row.contains_key(j) ==> row[j] == run_to(a, b, aj, w, i, j as int))
}

/// `m` is the best run among those that end in an earlier row, or in row `i`
/// before column `limit`.
spec fn best_so_far<V>(
    a: Seq<V>,
    b: Seq<V>,
    aj: bool,
    w: Window,
    i: int,
    limit: int,
    m: (int, int, int),
) -> bool {
    &&& m.2 >= 0
    &&& m.2 == 0 ==> m.0 == w.alo && m.1 == w.blo
    &&& m.2 > 0 ==> {
        &&& w.alo <= m.0
        &&& w.blo <= m.1
        &&& m.0 + m.2 <= w.ahi
        &&& m.1 + m.2 <= w.bhi
        &&& run_to(a, b, aj, w, m.0 + m.2 - 1, m.1 + m.2 - 1) == m.2
        &&& m.0 + m.2 <= i || (m.0 + m.2 == i + 1 && m.1 + m.2 <= limit)
    }
    &&& forall|p: int, q: int| #![trigger run_to(a, b, aj, w, p, q)]
        w.alo <= p && w.blo <= q < w.bhi && (p < i || (p == i && q < limit)) ==> {
            let k = run_to(a, b, aj, w, p, q);
            k <= m.2 && (k == m.2 && k > 0 ==> (m.0 + m.2 - 1 < p || (m.0 + m.2 - 1 == p && m.1 + m.2
                - 1 <= q)))
        }
}

proof fn lemma_best_step<V>(
    a: Seq<V>,
    b: Seq<V>,
    aj: bool,
    w: Window,
    i: int,
    limit: int,
    m: (int, int, int),
    j: int,
)
    requires
        best_so_far(a, b, aj, w, i, limit, m),
        w.alo <= i < w.ahi,
        limit <= j < w.bhi,
        forall|q: int| limit <= q < j ==> #[trigger] run_to(a, b, aj, w, i, q) == 0,
    ensures
        ({
            let k = run_to(a, b, aj, w, i, j) as int;
            best_so_far(
                a,
                b,
                aj,
                w,
                i,
                j + 1,
                if k > m.2 {
                    (i + 1 - k, j + 1 - k, k)
                } else {
                    m
                },
            )
        }),
{
    let k = run_to(a, b, aj, w, i, j) as int;
    lemma_run_to_bounds(a, b, aj, w, i, j);
    let n = if k > m.2 {
        (i + 1 - k, j + 1 - k, k)
    } else {
        m
    };
    assert(n.0 + n.2 - 1 == i ==> k > m.2 || n == m);
    assert forall|p: int, q: int| #![trigger run_to(a, b, aj, w, p, q)]
        w.alo <= p && w.blo <= q < w.bhi && (p < i || (p == i && q < j + 1)) implies {
        let k = run_to(a, b, aj, w, p, q);
        k <= n.2 && (k == n.2 && k > 0 ==> (n.0 + n.2 - 1 < p || (n.0 + n.2 - 1 == p && n.1 + n.2
            - 1 <= q)))
    } by {
        if p < i || q < limit {
        } else if q < j {
            assert(run_to(a, b, aj, w, i, q) == 0);
        }
    }
}

/// Searches one window for the longest match.
fn search<T: Element>(
    a: &Vec<T>,
    b: &Vec<T>,
    ix: &Index,
    autojunk: bool,
    alo: usize,
    ahi: usize,
    blo: usize,
    bhi: usize,
) -> (m: Match)
    requires
        ix.covers(views(a@), views(b@), autojunk),
        ahi <= a@.len(),
        bhi <= b@.len(),
    ensures
        m@ == longest_match(
            views(a@),
            views(b@),
            autojunk,
            (Window { alo: alo as int, ahi: ahi as int, blo: blo as int, bhi: bhi as int }),
        ),
{
    let ghost av = views(a@);
    let ghost bv = views(b@);
    let ghost w = Window { alo: alo as int, ahi: ahi as int, blo: blo as int, bhi: bhi as int };
    let mut besti: usize = alo;
    let mut bestj: usize = blo;
    let mut bestsize: usize = 0;
    let mut j2len: HashMap<usize, usize> = HashMap::new();
    let mut i: usize = alo;
    while i < ahi
        invariant
            alo <= i,
            i <= ahi || i == alo,
            ahi <= a@.len(),
            bhi <= b@.len(),
            av == views(a@),
            bv == views(b@),
            w == (Window { alo: alo as int, ahi: ahi as int, blo: blo as int, bhi: bhi as int }),
            ix.covers(av, bv, autojunk),
            row_ok(j2len@, av, bv, autojunk, w, i - 1, bhi as int),
            best_so_far(
                av,
                bv,
                autojunk,
                w,
                i as int,
                0,
                (besti as int, bestj as int, bestsize as int),
            ),
        decreases ahi - i,
    {
        let row: usize = ix.rows[i];
        let list: &Vec<usize> = &ix.lists[row];
        let mut newj2len: HashMap<usize, usize> = HashMap::new();
        let mut p: usize = 0;
        let mut done: bool = false;
        let ghost mut limit: int = 0;
        while p < list.len() && !done
            invariant
                p <= list@.len(),
                alo <= i < ahi,
                ahi <= a@.len(),
                bhi <= b@.len(),
                av == views(a@),
                bv == views(b@),
                w == (Window { alo: alo as int, ahi: ahi as int, blo: blo as int, bhi: bhi as int }),
                positions_ok(list@, bv, autojunk, av[i as int]),
                row_ok(j2len@, av, bv, autojunk, w, i - 1, bhi as int),
                row_ok(newj2len@, av, bv, autojunk, w, i as int, limit),
                0 <= limit,
                forall|q: int| 0 <= q < p ==> list@[q] < limit,
                forall|q: int| p <= q < list@.len() ==> list@[q] >= limit,
                done ==> p < list@.len() && list@[p as int] >= bhi,
                best_so_far(
                    av,
                    bv,
                    autojunk,
                    w,
                    i as int,
                    limit,
                    (besti as int, bestj as int, bestsize as int),
                ),
            decreases list@.len() - p + if done {
                0int
            } else {
                1
            },
        {
            let j: usize = list[p];
            proof {
                // Columns between two positions of `a[i]` hold no run.
                assert forall|q: int| limit <= q < j implies #[trigger] run_to(
                    av,
                    bv,
                    autojunk,
                    w,
                    i as int,
                    q,
                ) == 0 by {
                    if q >= blo && anchored(av, bv, autojunk, i as int, q) {
                        assert(bv[q] == av[i as int]);
                        assert(list@.contains(q as usize));
                        let t = choose|t: int| 0 <= t < list@.len() && list@[t] == q as usize;
                        assert(list@[t] < j);
                        assert(t < p);
                        assert(list@[t] < limit);
                        assert(false);
                    }
                }
            }
            if j >= bhi {
                done = true;
            } else {
                proof {
                    lemma_best_step(
                        av,
                        bv,
                        autojunk,
                        w,
                        i as int,
                        limit,
                        (besti as int, bestj as int, bestsize as int),
                        j as int,
                    );
                }
                if j < blo {
                    proof {
                        assert(run_to(av, bv, autojunk, w, i as int, j as int) == 0);
                    }
                } else {
                    let prev: usize = if j == 0 {
                        0
                    } else {
                        match j2len.get(&(j - 1)) {
                            Some(v) => *v,
                            None => 0,
                        }
                    };
                    proof {
                        assert(anchored(av, bv, autojunk, i as int, j as int));
                        if j > 0 {
                            let jm = (j - 1) as usize;
                            assert(j2len@.contains_key(jm) <==> run_to(
                                av,
                                bv,
                                autojunk,
                                w,
                                i - 1,
                                jm as int,
                            ) > 0);
                        }
                        assert(prev == run_to(av, bv, autojunk, w, i - 1, j - 1));
                        lemma_run_to_bounds(av, bv, autojunk, w, i - 1, j - 1);
                    }
                    let k: usize = prev + 1;
                    proof {
                        assert(k == run_to(av, bv, autojunk, w, i as int, j as int));
                        lemma_run_to_bounds(av, bv, autojunk, w, i as int, j as int);
                    }
                    let ghost row0 = newj2len@;
                    newj2len.insert(j, k);
                    proof {
                        assert(newj2len@ == row0.insert(j, k));
                    }
                    if k > bestsize {
                        besti = i + 1 - k;
                        bestj = j + 1 - k;
                        bestsize = k;
                    }
                }
                proof {
                    limit = j + 1;
                }
                p = p + 1;
            }
        }
        proof {
            assert forall|q: int| limit <= q < bhi implies #[trigger] run_to(
                av,
                bv,
                autojunk,
                w,
                i as int,
                q,
            ) == 0 by {
                if q >= blo && anchored(av, bv, autojunk, i as int, q) {
                    assert(bv[q] == av[i as int]);
                    assert(list@.contains(q as usize));
                    let t = choose|t: int| 0 <= t < list@.len() && list@[t] == q as usize;
                    if t >= p {
                        assert(list@[p as int] <= list@[t]);
                    }
                    assert(false);
                }
            }
            assert(row_ok(newj2len@, av, bv, autojunk, w, i as int, bhi as int));
            assert(best_so_far(
                av,
                bv,
                autojunk,
                w,
                i + 1,
                0,
                (besti as int, bestj as int, bestsize as int),
            ));
        }
        j2len = newj2len;
        i = i + 1;
    }
    proof {
        let m = (besti as int, bestj as int, bestsize as int);
        if bestsize > 0 {
            lemma_run_to_is_run(av, bv, autojunk, w, besti + bestsize - 1, bestj + bestsize - 1);
            assert(is_run(av, bv, autojunk, w, m));
            assert forall|o: (int, int, int)| #[trigger]
                is_run(av, bv, autojunk, w, o) implies no_worse(m, o) by {
                lemma_run_to_covers(av, bv, autojunk, w, o, o.2);
                let k = run_to(av, bv, autojunk, w, o.0 + o.2 - 1, o.1 + o.2 - 1);
                assert(k <= m.2);
            }
            assert(is_best_run(av, bv, autojunk, w, m));
            lemma_best_run_unique(av, bv, autojunk, w, m);
        } else {
            assert forall|o: (int, int, int)| !#[trigger]
                is_best_run(av, bv, autojunk, w, o) by {
                if is_run(av, bv, autojunk, w, o) {
                    lemma_run_to_covers(av, bv, autojunk, w, o, o.2);
                    let k = run_to(av, bv, autojunk, w, o.0 + o.2 - 1, o.1 + o.2 - 1);
                    assert(k <= m.2);
                    assert(false);
                }
            }
        }
        assert(best_run(av, bv, autojunk, w) == m);
        lemma_grow_bounds(av, bv, w, m.0, m.1);
        lemma_grow_right_bounds(av, bv, w, m.0 + m.2, m.1 + m.2);
    }
    let ghost m = (besti as int, bestj as int, bestsize as int);
    let ghost r = grow_right(av, bv, w, m.0 + m.2, m.1 + m.2);
    while besti > alo && bestj > blo && a[besti - 1].same(&b[bestj - 1])
        invariant
            alo <= besti <= m.0,
            blo <= bestj <= m.1,
            m.2 >= 0,
            m.0 + m.2 <= usize::MAX,
            m.2 == 0 ==> m.0 == alo && m.1 == blo,
            m.2 > 0 ==> m.0 + m.2 <= a@.len() && m.1 + m.2 <= b@.len(),
            av == views(a@),
            bv == views(b@),
            w == (Window { alo: alo as int, ahi: ahi as int, blo: blo as int, bhi: bhi as int }),
            besti + bestsize == m.0 + m.2,
            bestj + bestsize == m.1 + m.2,
            besti + grow_left(av, bv, w, m.0, m.1) == m.0 + grow_left(
                av,
                bv,
                w,
                besti as int,
                bestj as int,
            ),
        decreases besti,
    {
        besti = besti - 1;
        bestj = bestj - 1;
        bestsize = bestsize + 1;
    }
    while besti + bestsize < ahi && bestj + bestsize < bhi && a[besti + bestsize].same(
        &b[bestj + bestsize],
    )
        invariant
            alo <= besti,
            besti + bestsize <= usize::MAX,
            bestj + bestsize <= usize::MAX,
            ahi <= a@.len(),
            bhi <= b@.len(),
            av == views(a@),
            bv == views(b@),
            w == (Window { alo: alo as int, ahi: ahi as int, blo: blo as int, bhi: bhi as int }),
            m.0 + m.2 + r == besti + bestsize + grow_right(
                av,
                bv,
                w,
                besti + bestsize,
                bestj + bestsize,
            ),
        decreases ahi - besti - bestsize,
    {
        bestsize = bestsize + 1;
    }
    Match { a_start: besti, b_start: bestj, size: bestsize }
}

impl<T: Element> SequenceMatcher<T> {
    /// The longest block that `a[alo..ahi]` and `b[blo..bhi]` share, the
    /// earliest in `a` and then in `b` of the longest.
    pub fn find_longest_match(&mut self, alo: usize, ahi: usize, blo: usize, bhi: usize) -> (m:
        Match)
        requires
            old(self).wf(),
            ahi <= old(self).seq1().len(),
            bhi <= old(self).seq2().len(),
        ensures
            final(self).wf(),
            final(self).seq1() == old(self).seq1(),
            final(self).seq2() == old(self).seq2(),
            final(self).junks() == old(self).junks(),
            m@ == longest_match(
                old(self).seq1(),
                old(self).seq2(),
                old(self).junks(),
                (Window { alo: alo as int, ahi: ahi as int, blo: blo as int, bhi: bhi as int }),
            ),
    {
        self.chain_b();
        match &self.index {
            Some(ix) => search(&self.a, &self.b, ix, self.autojunk, alo, ahi, blo, bhi),
            None => Match { a_start: alo, b_start: blo, size: 0 },
        }
    }
}

/// A step of the search for all blocks: a window still to be searched, or a
/// block whose turn has come.
enum Task {
    Search(usize, usize, usize, usize),
    Emit(Match),
}

spec fn task_window(t: Task) -> Window {
    match t {
        Task::Search(alo, ahi, blo, bhi) => Window {
            alo: alo as int,
            ahi: ahi as int,
            blo: blo as int,
            bhi: bhi as int,
        },
        Task::Emit(m) => Window { alo: 0, ahi: 0, blo: 0, bhi: 0 },
    }
}

spec fn task_ok<V>(t: Task, a: Seq<V>, b: Seq<V>) -> bool {
    match t {
        Task::Search(alo, ahi, blo, bhi) => alo <= ahi <= a.len() && blo <= bhi <= b.len(),
        Task::Emit(m) => true,
    }
}

spec fn task_blocks<V>(t: Task, a: Seq<V>, b: Seq<V>, aj: bool) -> Seq<(int, int, int)> {
    match t {
        Task::Search(alo, ahi, blo, bhi) => blocks_in(a, b, aj, task_window(t)),
        Task::Emit(m) => seq![m@],
    }
}

spec fn task_cost(t: Task) -> int {
    match t {
        Task::Search(alo, ahi, blo, bhi) => 4 * (ahi - alo) + 2,
        Task::Emit(m) => 1,
    }
}

/// The blocks that the tasks, last first, will yield.
spec fn pending<V>(ts: Seq<Task>, a: Seq<V>, b: Seq<V>, aj: bool) -> Seq<(int, int, int)>
    decreases ts.len(),
{
    if ts.len() == 0 {
        Seq::empty()
    } else {
        task_blocks(ts.last(), a, b, aj) + pending(ts.drop_last(), a, b, aj)
    }
}

spec fn cost(ts: Seq<Task>) -> int
    decreases ts.len(),
{
    if ts.len() == 0 {
        0
    } else {
        task_cost(ts.last()) + cost(ts.drop_last())
    }
}

proof fn lemma_push_task<V>(ts: Seq<Task>, t: Task, a: Seq<V>, b: Seq<V>, aj: bool)
    ensures
        pending(ts.push(t), a, b, aj) == task_blocks(t, a, b, aj) + pending(ts, a, b, aj),
        cost(ts.push(t)) == task_cost(t) + cost(ts),
{
    assert(ts.push(t).drop_last() =~= ts);
}

proof fn lemma_cost_nonneg(ts: Seq<Task>)
    requires
        forall|k: int| 0 <= k < ts.len() ==> task_cost(#[trigger] ts[k]) >= 0,
    ensures
        cost(ts) >= 0,
    decreases ts.len(),
{
    if ts.len() > 0 {
        assert(ts.last() == ts[ts.len() - 1]);
        assert forall|k: int| 0 <= k < ts.drop_last().len() implies task_cost(
            #[trigger] ts.drop_last()[k],
        ) >= 0 by {
            assert(ts.drop_last()[k] == ts[k]);
        }
        lemma_cost_nonneg(ts.drop_last());
    }
}

/// Queues what is left of a window once its longest match is known: the part
/// before the match, the match, and the part after it.
fn push_parts<V>(
    tasks: &mut Vec<Task>,
    m: Match,
    alo: usize,
    ahi: usize,
    blo: usize,
    bhi: usize,
    a: Ghost<Seq<V>>,
    b: Ghost<Seq<V>>,
    aj: Ghost<bool>,
)
    requires
        alo <= ahi <= a@.len(),
        blo <= bhi <= b@.len(),
        m.size > 0,
        ({
            let w = task_window(Task::Search(alo, ahi, blo, bhi));
            inside(w, m@) && m@ == longest_match(a@, b@, aj@, w)
        }),
        forall|k: int| 0 <= k < old(tasks)@.len() ==> task_ok(#[trigger] old(tasks)@[k], a@, b@),
    ensures
        forall|k: int|
            0 <= k < final(tasks)@.len() ==> task_ok(#[trigger] final(tasks)@[k], a@, b@),
        pending(final(tasks)@, a@, b@, aj@) == blocks_in(
            a@,
            b@,
            aj@,
            task_window(Task::Search(alo, ahi, blo, bhi)),
        ) + pending(old(tasks)@, a@, b@, aj@),
        cost(final(tasks)@) < task_cost(Task::Search(alo, ahi, blo, bhi)) + cost(old(tasks)@),
{
    let ghost w = task_window(Task::Search(alo, ahi, blo, bhi));
    let ghost rest = tasks@;
    let ghost left = if open_window(before(w, m@)) {
        blocks_in(a@, b@, aj@, before(w, m@))
    } else {
        Seq::empty()
    };
    let ghost right = if open_window(after(w, m@)) {
        blocks_in(a@, b@, aj@, after(w, m@))
    } else {
        Seq::empty()
    };
    if m.a_start + m.size < ahi && m.b_start + m.size < bhi {
        let t = Task::Search(m.a_start + m.size, ahi, m.b_start + m.size, bhi);
        proof {
            lemma_push_task(rest, t, a@, b@, aj@);
            assert(task_window(t) == after(w, m@));
        }
        tasks.push(t);
    }
    let ghost mid = tasks@;
    proof {
        assert(pending(mid, a@, b@, aj@) =~= right + pending(rest, a@, b@, aj@));
        lemma_push_task(mid, Task::Emit(m), a@, b@, aj@);
    }
    tasks.push(Task::Emit(m));
    let ghost mid2 = tasks@;
    if alo < m.a_start && blo < m.b_start {
        let t = Task::Search(alo, m.a_start, blo, m.b_start);
        proof {
            lemma_push_task(mid2, t, a@, b@, aj@);
            assert(task_window(t) == before(w, m@));
        }
        tasks.push(t);
    }
    proof {
        assert(blocks_in(a@, b@, aj@, w) == left + seq![m@] + right);
        assert(pending(tasks@, a@, b@, aj@) =~= left + (seq![m@] + (right + pending(
            rest,
            a@,
            b@,
            aj@,
        ))));
        assert(pending(tasks@, a@, b@, aj@) =~= blocks_in(a@, b@, aj@, w) + pending(
            rest,
            a@,
            b@,
            aj@,
        ));
    }
}

impl<T: Element> SequenceMatcher<T> {
    /// All the blocks, unmerged and in order.
    fn collect_blocks(&mut self) -> (found: Vec<Match>)
        requires
            old(self).wf(),
        ensures
            final(self).wf(),
            final(self).seq1() == old(self).seq1(),
            final(self).seq2() == old(self).seq2(),
            final(self).junks() == old(self).junks(),
            views(found@) == blocks_in(
                old(self).seq1(),
                old(self).seq2(),
                old(self).junks(),
                whole(old(self).seq1(), old(self).seq2()),
            ),
    {
        let ghost av = self.seq1();
        let ghost bv = self.seq2();
        let ghost aj = self.junks();
        let ghost all = blocks_in(av, bv, aj, whole(av, bv));
        let la: usize = self.a.len();
        let lb: usize = self.b.len();
        let mut found: Vec<Match> = Vec::new();
        let mut tasks: Vec<Task> = Vec::new();
        tasks.push(Task::Search(0, la, 0, lb));
        proof {
            let t = Task::Search(0, la, 0, lb);
            lemma_push_task(Seq::<Task>::empty(), t, av, bv, aj);
            assert(tasks@ =~= Seq::<Task>::empty().push(t));
            assert(task_window(t) == whole(av, bv));
            assert(pending(Seq::<Task>::empty(), av, bv, aj) =~= Seq::empty());
            assert(views(found@) + pending(tasks@, av, bv, aj) =~= all);
        }
        while tasks.len() > 0
            invariant
                self.wf(),
                self.seq1() == av,
                self.seq2() == bv,
                self.junks() == aj,
                views(found@) + pending(tasks@, av, bv, aj) == all,
                forall|k: int| 0 <= k < tasks@.len() ==> task_ok(#[trigger] tasks@[k], av, bv),
            decreases cost(tasks@),
        {
            let ghost ts = tasks@;
            let ghost f0 = found@;
            proof {
                assert(task_ok(ts[ts.len() - 1], av, bv));
                assert forall|k: int| 0 <= k < ts.len() implies task_cost(#[trigger] ts[k])
                    >= 0 by {
                    assert(task_ok(ts[k], av, bv));
                }
            }
            let task = tasks.pop().unwrap();
            let ghost rest = tasks@;
            proof {
                assert(rest =~= ts.drop_last());
                assert forall|k: int| 0 <= k < rest.len() implies task_cost(#[trigger] rest[k])
                    >= 0 by {
                    assert(rest[k] == ts[k]);
                }
                lemma_cost_nonneg(rest);
            }
            match task {
                Task::Emit(m) => {
                    found.push(m);
                    proof {
                        assert(views(found@) =~= views(f0).push(m@));
                        assert(views(f0) + (seq![m@] + pending(rest, av, bv, aj)) =~= views(found@)
                            + pending(rest, av, bv, aj));
                    }
                },
                Task::Search(alo, ahi, blo, bhi) => {
                    let ghost w = task_window(task);
                    let m = self.find_longest_match(alo, ahi, blo, bhi);
                    proof {
                        lemma_longest_inside(av, bv, aj, w);
                        assert(inside(w, m@));
                    }
                    if m.size > 0 {
                        push_parts::<T::V>(
                            &mut tasks,
                            m,
                            alo,
                            ahi,
                            blo,
                            bhi,
                            Ghost(av),
                            Ghost(bv),
                            Ghost(aj),
                        );
                        proof {
                            assert(pending(ts, av, bv, aj) =~= pending(tasks@, av, bv, aj));
                        }
                    } else {
                        proof {
                            assert(pending(ts, av, bv, aj) =~= pending(rest, av, bv, aj));
                        }
                    }
                },
            }
            proof {
                assert forall|k: int| 0 <= k < tasks@.len() implies task_cost(
                    #[trigger] tasks@[k],
                ) >= 0 by {
                    assert(task_ok(tasks@[k], av, bv));
                }
                lemma_cost_nonneg(tasks@);
            }
        }
        proof {
            assert(views(found@) + Seq::<(int, int, int)>::empty() =~= views(found@));
        }
        found
    }
}

/// Whether the block `m` lies in the window, is not empty and pairs equal
/// elements.
pub open spec fn is_block<V>(a: Seq<V>, b: Seq<V>, w: Window, m: (int, int, int)) -> bool {
    &&& m.2 > 0
    &&& inside(w, m)
    &&& forall|t: int| 0 <= t < m.2 ==> #[trigger] a[m.0 + t] == b[m.1 + t]
}

/// Whether `bs` are blocks of the window, each ending, in both sequences, no
/// later than the next begins.
pub open spec fn is_block_chain<V>(
    a: Seq<V>,
    b: Seq<V>,
    w: Window,
    bs: Seq<(int, int, int)>,
) -> bool {
    &&& forall|k: int| 0 <= k < bs.len() ==> is_block(a, b, w, #[trigger] bs[k])
    &&& forall|p: int, q: int|
        0 <= p < q < bs.len() ==> (#[trigger] bs[p]).0 + bs[p].2 <= (#[trigger] bs[q]).0 && bs[p].1
            + bs[p].2 <= bs[q].1
}

proof fn lemma_grow_left_equal<V>(a: Seq<V>, b: Seq<V>, w: Window, i: int, j: int)
    ensures
        forall|t: int|
            i - grow_left(a, b, w, i, j) <= t < i ==> #[trigger] a[t] == b[t - i + j],
    decreases i - w.alo,
{
    if i > w.alo && j > w.blo && a[i - 1] == b[j - 1] {
        lemma_grow_left_equal(a, b, w, i - 1, j - 1);
        assert forall|t: int| i - grow_left(a, b, w, i, j) <= t < i implies #[trigger] a[t] == b[t
            - i + j] by {
            if t < i - 1 {
                assert(a[t] == b[t - (i - 1) + (j - 1)]);
            }
        }
    }
}

proof fn lemma_grow_right_equal<V>(a: Seq<V>, b: Seq<V>, w: Window, i: int, j: int)
    ensures
        forall|t: int|
            i <= t < i + grow_right(a, b, w, i, j) ==> #[trigger] a[t] == b[t - i + j],
    decreases w.ahi - i,
{
    if i < w.ahi && j < w.bhi && a[i] == b[j] {
        lemma_grow_right_equal(a, b, w, i + 1, j + 1);
        assert forall|t: int| i <= t < i + grow_right(a, b, w, i, j) implies #[trigger] a[t] == b[t
            - i + j] by {
            if t > i {
                assert(a[t] == b[t - (i + 1) + (j + 1)]);
            }
        }
    }
}

/// A search finds a block of its window: what it pairs is equal.
pub proof fn longest_match_is_block<V>(a: Seq<V>, b: Seq<V>, autojunk: bool, w: Window)
    requires
        w.alo <= w.ahi,
        w.blo <= w.bhi,
    ensures
        inside(w, longest_match(a, b, autojunk, w)),
        longest_match(a, b, autojunk, w).2 > 0 ==> is_block(
            a,
            b,
            w,
            longest_match(a, b, autojunk, w),
        ),
{
    lemma_longest_inside(a, b, autojunk, w);
    let c = best_run(a, b, autojunk, w);
    let m = longest_match(a, b, autojunk, w);
    let l = grow_left(a, b, w, c.0, c.1);
    if exists|m: (int, int, int)| is_best_run(a, b, autojunk, w, m) {
        assert(is_best_run(a, b, autojunk, w, c));
    }
    lemma_grow_left_equal(a, b, w, c.0, c.1);
    lemma_grow_right_equal(a, b, w, c.0 + c.2, c.1 + c.2);
    assert forall|t: int| 0 <= t < m.2 implies #[trigger] a[m.0 + t] == b[m.1 + t] by {
        let u = m.0 + t;
        if t < l {
            assert(a[u] == b[u - c.0 + c.1]);
        } else if t < l + c.2 {
            assert(anchored(a, b, autojunk, c.0 + (t - l), c.1 + (t - l)));
        } else {
            assert(a[u] == b[u - (c.0 + c.2) + (c.1 + c.2)]);
        }
    }
}

/// The blocks found in a window form a chain.
pub proof fn blocks_form_chain<V>(a: Seq<V>, b: Seq<V>, autojunk: bool, w: Window)
    requires
        w.alo <= w.ahi,
        w.blo <= w.bhi,
    ensures
        is_block_chain(a, b, w, blocks_in(a, b, autojunk, w)),
    decreases w.ahi - w.alo,
{
    let m = longest_match(a, b, autojunk, w);
    longest_match_is_block(a, b, autojunk, w);
    if m.2 > 0 {
        let wl = before(w, m);
        let wr = after(w, m);
        let left = if open_window(wl) {
            blocks_in(a, b, autojunk, wl)
        } else {
            Seq::empty()
        };
        let right = if open_window(wr) {
            blocks_in(a, b, autojunk, wr)
        } else {
            Seq::empty()
        };
        if open_window(wl) {
            blocks_form_chain(a, b, autojunk, wl);
        }
        if open_window(wr) {
            blocks_form_chain(a, b, autojunk, wr);
        }
        let bs = left + seq![m] + right;
        assert(bs == blocks_in(a, b, autojunk, w));
        assert forall|k: int| 0 <= k < bs.len() implies is_block(a, b, w, #[trigger] bs[k]) by {
            if k < left.len() {
                assert(bs[k] == left[k]);
                assert(is_block(a, b, wl, left[k]));
            } else if k == left.len() {
                assert(bs[k] == m);
            } else {
                assert(bs[k] == right[k - left.len() - 1]);
                assert(is_block(a, b, wr, right[k - left.len() - 1]));
            }
        }
        assert forall|p: int, q: int| 0 <= p < q < bs.len() implies (#[trigger] bs[p]).0 + bs[p].2
            <= (#[trigger] bs[q]).0 && bs[p].1 + bs[p].2 <= bs[q].1 by {
            if p < left.len() {
                assert(bs[p] == left[p]);
                assert(is_block(a, b, wl, left[p]));
            }
            if q > left.len() {
                assert(bs[q] == right[q - left.len() - 1]);
                assert(is_block(a, b, wr, right[q - left.len() - 1]));
            }
            if q < left.len() {
                assert(bs[q] == left[q]);
            }
            if p > left.len() {
                assert(bs[p] == right[p - left.len() - 1]);
            }
        }
    }
}

/// Merges blocks that adjoin.
fn merge_blocks<V>(
    found: &Vec<Match>,
    la: usize,
    lb: usize,
    a: Ghost<Seq<V>>,
    b: Ghost<Seq<V>>,
) -> (out: Vec<Match>)
    requires
        la == a@.len(),
        lb == b@.len(),
        is_block_chain(a@, b@, whole(a@, b@), views(found@)),
    ensures
        views(out@) == merged_from(views(found@), 0, (0, 0, 0)),
{
    let ghost bs = views(found@);
    let ghost all = merged_from(bs, 0, (0, 0, 0));
    let mut out: Vec<Match> = Vec::new();
    let mut i1: usize = 0;
    let mut j1: usize = 0;
    let mut k1: usize = 0;
    let mut k: usize = 0;
    proof {
        assert(views(out@) + all =~= all);
    }
    while k < found.len()
        invariant
            k <= found@.len(),
            bs == views(found@),
            la == a@.len(),
            lb == b@.len(),
            is_block_chain(a@, b@, whole(a@, b@), bs),
            i1 + k1 <= la,
            j1 + k1 <= lb,
            all == merged_from(bs, 0, (0, 0, 0)),
            views(out@) + merged_from(bs, k as int, (i1 as int, j1 as int, k1 as int)) == all,
        decreases found@.len() - k,
    {
        let m = found[k];
        let ghost cur = (i1 as int, j1 as int, k1 as int);
        let ghost out0 = out@;
        proof {
            assert(bs[k as int] == m@);
            assert(is_block(a@, b@, whole(a@, b@), bs[k as int]));
        }
        if i1 + k1 == m.a_start && j1 + k1 == m.b_start {
            k1 = k1 + m.size;
        } else {
            if k1 > 0 {
                let c = Match { a_start: i1, b_start: j1, size: k1 };
                out.push(c);
                proof {
                    assert(views(out@) =~= views(out0).push(c@));
                    assert(views(out0) + (seq![cur] + merged_from(bs, k + 1, m@)) =~= views(out@)
                        + merged_from(bs, k + 1, m@));
                }
            } else {
                proof {
                    assert(views(out0) + (Seq::<(int, int, int)>::empty() + merged_from(
                        bs,
                        k + 1,
                        m@,
                    )) =~= views(out@) + merged_from(bs, k + 1, m@));
                }
            }
            i1 = m.a_start;
            j1 = m.b_start;
            k1 = m.size;
        }
        k = k + 1;
    }
    if k1 > 0 {
        let ghost out0 = out@;
        let c = Match { a_start: i1, b_start: j1, size: k1 };
        out.push(c);
        proof {
            assert(views(out@) =~= views(out0) + seq![c@]);
        }
    } else {
        proof {
            assert(views(out@) + Seq::<(int, int, int)>::empty() =~= views(out@));
        }
    }
    out
}

/// A copy of a list of blocks.
fn copy_blocks(v: &Vec<Match>) -> (r: Vec<Match>)
    ensures
        r@ == v@,
{
    let mut r: Vec<Match> = Vec::new();
    let mut k: usize = 0;
    while k < v.len()
        invariant
            k <= v@.len(),
            r@ == v@.take(k as int),
        decreases v@.len() - k,
    {
        r.push(v[k]);
        proof {
            assert(v@.take(k + 1) =~= v@.take(k as int).push(v@[k as int]));
        }
        k = k + 1;
    }
    proof {
        assert(v@.take(k as int) =~= v@);
    }
    r
}

/// A copy of a list of segments.
fn copy_codes(v: &Vec<OpCode>) -> (r: Vec<OpCode>)
    ensures
        r@ == v@,
{
    let mut r: Vec<OpCode> = Vec::new();
    let mut k: usize = 0;
    while k < v.len()
        invariant
            k <= v@.len(),
            r@ == v@.take(k as int),
        decreases v@.len() - k,
    {
        r.push(v[k]);
        proof {
            assert(v@.take(k + 1) =~= v@.take(k as int).push(v@[k as int]));
        }
        k = k + 1;
    }
    proof {
        assert(v@.take(k as int) =~= v@);
    }
    r
}

impl<T: Element> SequenceMatcher<T> {
    /// The blocks that the two sequences share, in order and merged where they
    /// adjoin, then an empty block at the two ends.
    pub fn get_matching_blocks(&mut self) -> (r: Vec<Match>)
        requires
            old(self).wf(),
        ensures
            final(self).wf(),
            final(self).seq1() == old(self).seq1(),
            final(self).seq2() == old(self).seq2(),
            final(self).junks() == old(self).junks(),
            views(r@) == matching_blocks(old(self).seq1(), old(self).seq2(), old(self).junks()),
    {
        if let Some(blocks) = &self.matching_blocks {
            return copy_blocks(blocks);
        }
        let la: usize = self.a.len();
        let lb: usize = self.b.len();
        let ghost av = self.seq1();
        let ghost bv = self.seq2();
        let found = self.collect_blocks();
        proof {
            blocks_form_chain(av, bv, self.junks(), whole(av, bv));
        }
        let mut out = merge_blocks::<T::V>(&found, la, lb, Ghost(av), Ghost(bv));
        let ghost out0 = out@;
        let end = Match { a_start: la, b_start: lb, size: 0 };
        out.push(end);
        proof {
            assert(views(out@) =~= views(out0).push(end@));
        }
        self.matching_blocks = Some(copy_blocks(&out));
        out
    }
}

proof fn lemma_merge_chain<V>(
    a: Seq<V>,
    b: Seq<V>,
    w: Window,
    bs: Seq<(int, int, int)>,
    k: int,
    cur: (int, int, int),
)
    requires
        is_block_chain(a, b, w, bs),
        0 <= k <= bs.len(),
        cur.2 >= 0,
        cur.2 > 0 ==> is_block(a, b, w, cur),
        cur.2 == 0 ==> cur == (w.alo, w.blo, 0int),
        forall|q: int| k <= q < bs.len() ==> cur.0 + cur.2 <= (#[trigger] bs[q]).0 && cur.1 + cur.2
            <= bs[q].1,
    ensures
        is_block_chain(a, b, w, merged_from(bs, k, cur)),
        forall|q: int|
            0 <= q < merged_from(bs, k, cur).len() ==> cur.0 <= (#[trigger] merged_from(bs, k, cur)[q]).0
                && cur.1 <= merged_from(bs, k, cur)[q].1,
    decreases bs.len() - k,
{
    let r = merged_from(bs, k, cur);
    if k < bs.len() {
        let m = bs[k];
        assert(is_block(a, b, w, m));
        if cur.0 + cur.2 == m.0 && cur.1 + cur.2 == m.1 {
            let c = (cur.0, cur.1, cur.2 + m.2);
            assert forall|t: int| 0 <= t < c.2 implies #[trigger] a[c.0 + t] == b[c.1 + t] by {
                if t >= cur.2 {
                    assert(a[m.0 + (t - cur.2)] == b[m.1 + (t - cur.2)]);
                }
            }
            assert forall|q: int| k + 1 <= q < bs.len() implies c.0 + c.2 <= (#[trigger] bs[q]).0
                && c.1 + c.2 <= bs[q].1 by {
                assert(bs[k].0 + bs[k].2 <= bs[q].0);
            }
            lemma_merge_chain(a, b, w, bs, k + 1, c);
        } else {
            assert forall|q: int| k + 1 <= q < bs.len() implies m.0 + m.2 <= (#[trigger] bs[q]).0
                && m.1 + m.2 <= bs[q].1 by {
                assert(bs[k].0 + bs[k].2 <= bs[q].0);
            }
            lemma_merge_chain(a, b, w, bs, k + 1, m);
            let rest = merged_from(bs, k + 1, m);
            if cur.2 > 0 {
                assert(r =~= seq![cur] + rest);
                assert forall|q: int| 0 <= q < r.len() implies is_block(a, b, w, #[trigger] r[q]) by {
                    if q > 0 {
                        assert(r[q] == rest[q - 1]);
                    }
                }
                assert forall|p: int, q: int| 0 <= p < q < r.len() implies (#[trigger] r[p]).0
                    + r[p].2 <= (#[trigger] r[q]).0 && r[p].1 + r[p].2 <= r[q].1 by {
                    assert(r[q] == rest[q - 1]);
                    if p > 0 {
                        assert(r[p] == rest[p - 1]);
                    }
                }
                assert forall|q: int| 0 <= q < r.len() implies cur.0 <= (#[trigger] r[q]).0
                    && cur.1 <= r[q].1 by {
                    if q > 0 {
                        assert(r[q] == rest[q - 1]);
                    }
                }
            } else {
                assert(r =~= rest);
            }
        }
    }
}

/// All but the last of the matching blocks of two sequences form a chain, and
/// the last is the empty block at the two ends.
pub proof fn matching_blocks_form_chain<V>(a: Seq<V>, b: Seq<V>, autojunk: bool)
    ensures
        ({
            let bs = matching_blocks(a, b, autojunk);
            &&& bs.len() > 0
            &&& bs.last() == (a.len() as int, b.len() as int, 0int)
            &&& is_block_chain(a, b, whole(a, b), bs.drop_last())
        }),
{
    let w = whole(a, b);
    blocks_form_chain(a, b, autojunk, w);
    let bs = blocks_in(a, b, autojunk, w);
    assert forall|q: int| 0 <= q < bs.len() implies 0 <= (#[trigger] bs[q]).0 && 0 <= bs[q].1 by {
        assert(is_block(a, b, w, bs[q]));
    }
    lemma_merge_chain(a, b, w, bs, 0, (0, 0, 0));
    assert(matching_blocks(a, b, autojunk).drop_last() =~= merged_from(bs, 0, (0, 0, 0)));
}

proof fn lemma_block_bounds<V>(a: Seq<V>, b: Seq<V>, autojunk: bool, k: int)
    requires
        0 <= k < matching_blocks(a, b, autojunk).len(),
    ensures
        inside(whole(a, b), matching_blocks(a, b, autojunk)[k]),
{
    matching_blocks_form_chain(a, b, autojunk);
    let bs = matching_blocks(a, b, autojunk);
    if k < bs.len() - 1 {
        assert(bs[k] == bs.drop_last()[k]);
        assert(is_block(a, b, whole(a, b), bs.drop_last()[k]));
    } else {
        assert(bs[k] == bs.last());
    }
}

impl<T: Element> SequenceMatcher<T> {
    /// The segments that turn the first sequence into the second.
    pub fn get_opcodes(&mut self) -> (r: Vec<OpCode>)
        requires
            old(self).wf(),
        ensures
            final(self).wf(),
            final(self).seq1() == old(self).seq1(),
            final(self).seq2() == old(self).seq2(),
            final(self).junks() == old(self).junks(),
            views(r@) == opcodes(old(self).seq1(), old(self).seq2(), old(self).junks()),
    {
        if let Some(codes) = &self.opcodes {
            return copy_codes(codes);
        }
        let ghost av = self.seq1();
        let ghost bv = self.seq2();
        let ghost aj = self.junks();
        let ghost la = self.a.len();
        let ghost lb = self.b.len();
        let blocks = self.get_matching_blocks();
        let ghost bs = views(blocks@);
        let ghost all = opcodes_from(bs, 0, 0, 0);
        let mut answer: Vec<OpCode> = Vec::new();
        let mut i: usize = 0;
        let mut j: usize = 0;
        let mut k: usize = 0;
        proof {
            assert(views(answer@) + all =~= all);
        }
        while k < blocks.len()
            invariant
                k <= blocks@.len(),
                bs == views(blocks@),
                bs == matching_blocks(av, bv, aj),
                la == av.len(),
                lb == bv.len(),
                all == opcodes_from(bs, 0, 0, 0),
                views(answer@) + opcodes_from(bs, k as int, i as int, j as int) == all,
            decreases blocks@.len() - k,
        {
            let m = blocks[k];
            proof {
                assert(bs[k as int] == m@);
                lemma_block_bounds(av, bv, aj, k as int);
            }
            let ghost a0 = answer@;
            let ghost i0 = i as int;
            let ghost j0 = j as int;
            if i < m.a_start || j < m.b_start {
                let tag = if i < m.a_start && j < m.b_start {
                    OpTag::Replace
                } else if i < m.a_start {
                    OpTag::Delete
                } else {
                    OpTag::Insert
                };
                answer.push(OpCode { tag, i1: i, i2: m.a_start, j1: j, j2: m.b_start });
            }
            let ghost a1 = answer@;
            proof {
                assert(views(a1) =~= views(a0) + gap_code(i as int, j as int, m@));
            }
            i = m.a_start + m.size;
            j = m.b_start + m.size;
            if m.size > 0 {
                answer.push(
                    OpCode { tag: OpTag::Equal, i1: m.a_start, i2: i, j1: m.b_start, j2: j },
                );
            }
            proof {
                assert(views(answer@) =~= views(a1) + block_code(m@));
                assert(views(answer@) + opcodes_from(bs, k + 1, i as int, j as int) =~= views(a0)
                    + opcodes_from(bs, k as int, i0, j0));
            }
            k = k + 1;
        }
        proof {
            assert(views(answer@) + Seq::<(OpTag, int, int, int, int)>::empty() =~= views(answer@));
        }
        self.opcodes = Some(copy_codes(&answer));
        answer
    }
}

proof fn lemma_fraction_step(n1: int, d1: int, n2: int, d2: int, q: int)
    by (nonlinear_arith)
    requires
        d1 > 0,
        d2 > 0,
    ensures
        n1 * d2 > n2 * d1 <==> (n1 - q * d1) * d2 > (n2 - q * d2) * d1,
{
    assert((n1 - q * d1) * d2 == n1 * d2 - q * d1 * d2);
    assert((n2 - q * d2) * d1 == n2 * d1 - q * d2 * d1);
    assert(q * d1 * d2 == q * d2 * d1);
}

proof fn lemma_fraction_quotients(n1: int, d1: int, n2: int, d2: int, q1: int, r1: int, q2: int, r2: int)
    by (nonlinear_arith)
    requires
        d1 > 0,
        d2 > 0,
        n1 == q1 * d1 + r1,
        n2 == q2 * d2 + r2,
        0 <= r1 < d1,
        0 <= r2 < d2,
    ensures
        q1 > q2 ==> n1 * d2 > n2 * d1,
        q1 < q2 ==> !(n1 * d2 > n2 * d1),
{
    if q1 > q2 {
        assert(n1 >= (q2 + 1) * d1);
        assert(n1 * d2 >= (q2 + 1) * d1 * d2);
        assert(n2 < (q2 + 1) * d2);
        assert(n2 * d1 < (q2 + 1) * d2 * d1);
        assert((q2 + 1) * d1 * d2 == (q2 + 1) * d2 * d1);
    }
    if q1 < q2 {
        assert(n2 >= (q1 + 1) * d2);
        assert(n2 * d1 >= (q1 + 1) * d2 * d1);
        assert(n1 < (q1 + 1) * d1);
        assert(n1 * d2 < (q1 + 1) * d1 * d2);
        assert((q1 + 1) * d1 * d2 == (q1 + 1) * d2 * d1);
    }
}

/// Whether `n1 / d1` is greater than `n2 / d2`, decided without a product that
/// might not fit.
fn fraction_exceeds(n1: u128, d1: u128, n2: u128, d2: u128) -> (r: bool)
    requires
        d1 > 0,
        d2 > 0,
    ensures
        r == (n1 * d2 > n2 * d1),
    decreases d1 + d2,
{
    let q1: u128 = n1 / d1;
    let q2: u128 = n2 / d2;
    let r1: u128 = n1 % d1;
    let r2: u128 = n2 % d2;
    proof {
        vstd::arithmetic::div_mod::lemma_fundamental_div_mod(n1 as int, d1 as int);
        vstd::arithmetic::div_mod::lemma_fundamental_div_mod(n2 as int, d2 as int);
        assert(d1 * q1 == q1 * d1 && d2 * q2 == q2 * d2) by (nonlinear_arith);
        lemma_fraction_quotients(
            n1 as int,
            d1 as int,
            n2 as int,
            d2 as int,
            q1 as int,
            r1 as int,
            q2 as int,
            r2 as int,
        );
        lemma_fraction_step(n1 as int, d1 as int, n2 as int, d2 as int, q1 as int);
    }
    if q1 != q2 {
        return q1 > q2;
    }
    if r1 == 0 {
        proof {
            assert(r1 * d2 == 0) by (nonlinear_arith)
                requires
                    r1 == 0,
            ;
            assert(r2 * d1 >= 0) by (nonlinear_arith);
        }
        return false;
    }
    if r2 == 0 {
        proof {
            assert(r1 * d2 > 0) by (nonlinear_arith)
                requires
                    r1 > 0,
                    d2 > 0,
            ;
            assert(r2 * d1 == 0) by (nonlinear_arith)
                requires
                    r2 == 0,
            ;
        }
        return true;
    }
    proof {
        assert(d2 * r1 == r1 * d2 && d1 * r2 == r2 * d1) by (nonlinear_arith);
    }
    fraction_exceeds(d2, r2, d1, r1)
}

/// A similarity: the fraction `num / den`, between 0 and 1.
#[derive(Debug, Clone, Copy, PartialEq, Eq, Structural)]
pub struct Ratio {
    pub num: u128,
    pub den: u128,
}

impl View for Ratio {
    type V = (int, int);

    open spec fn view(&self) -> (int, int) {
        (self.num as int, self.den as int)
    }
}

/// Twice the matches over the total length; one where nothing is compared.
pub open spec fn ratio_of(matches: int, total: int) -> (int, int) {
    if total == 0 {
        (1, 1)
    } else {
        (2 * matches, total)
    }
}

/// Whether the fraction `x` is greater than the fraction `y`.
pub open spec fn exceeds(x: (int, int), y: (int, int)) -> bool {
    x.0 * y.1 > y.0 * x.1
}

impl Ratio {
    /// Whether this ratio is the greater one.
    pub fn exceeds(&self, other: &Ratio) -> (r: bool)
        requires
            self.den > 0,
            other.den > 0,
        ensures
            r == exceeds(self@, other@),
    {
        fraction_exceeds(self.num, self.den, other.num, other.den)
    }
}

fn calculate_ratio(matches: usize, la: usize, lb: usize) -> (r: Ratio)
    ensures
        r.den > 0,
        r@ == ratio_of(matches as int, la + lb),
{
    let total: u128 = la as u128 + lb as u128;
    if total == 0 {
        Ratio { num: 1, den: 1 }
    } else {
        Ratio { num: 2 * (matches as u128), den: total }
    }
}

/// How much of the two sequences the matching blocks cover.
pub open spec fn similarity<V>(a: Seq<V>, b: Seq<V>, autojunk: bool) -> (int, int) {
    ratio_of(total_size(matching_blocks(a, b, autojunk)), (a.len() + b.len()) as int)
}

/// An upper bound on the similarity that ignores order.
pub open spec fn quick_similarity<V>(a: Seq<V>, b: Seq<V>) -> (int, int) {
    ratio_of(common_count(a, b) as int, (a.len() + b.len()) as int)
}

/// An upper bound on the similarity from the lengths alone.
pub open spec fn real_quick_similarity<V>(a: Seq<V>, b: Seq<V>) -> (int, int) {
    ratio_of(
        if a.len() <= b.len() {
            a.len() as int
        } else {
            b.len() as int
        },
        (a.len() + b.len()) as int,
    )
}

proof fn lemma_count_take<V>(s: Seq<V>, i: int, x: V)
    requires
        0 <= i < s.len(),
    ensures
        count_of(s.take(i + 1), x) == count_of(s.take(i), x) + if s[i] == x {
            1nat
        } else {
            0
        },
{
    assert(s.take(i + 1).drop_last() =~= s.take(i));
    assert(s.take(i + 1).last() == s[i]);
}

impl<T: Element> SequenceMatcher<T> {
    /// How similar the two sequences are: twice the number of elements in
    /// matching blocks over the sum of the lengths.
    pub fn ratio(&mut self) -> (r: Ratio)
        requires
            old(self).wf(),
        ensures
            final(self).wf(),
            final(self).seq1() == old(self).seq1(),
            final(self).seq2() == old(self).seq2(),
            final(self).junks() == old(self).junks(),
            r.den > 0,
            r@ == similarity(old(self).seq1(), old(self).seq2(), old(self).junks()),
    {
        let ghost av = self.seq1();
        let ghost bv = self.seq2();
        let ghost aj = self.junks();
        let la: usize = self.a.len();
        let blocks = self.get_matching_blocks();
        let ghost bs = views(blocks@);
        let mut matches: usize = 0;
        let mut k: usize = 0;
        while k < blocks.len()
            invariant
                k <= blocks@.len(),
                bs == views(blocks@),
                bs == matching_blocks(av, bv, aj),
                la == av.len(),
                matches == total_size(bs.take(k as int)),
                matches <= if k == 0 {
                    0
                } else {
                    bs[k - 1].0 + bs[k - 1].2
                },
            decreases blocks@.len() - k,
        {
            proof {
                assert(bs[k as int] == blocks@[k as int]@);
                lemma_block_bounds(av, bv, aj, k as int);
                assert(bs.take(k + 1).drop_last() =~= bs.take(k as int));
                assert(bs.take(k + 1).last() == bs[k as int]);
                if k > 0 {
                    matching_blocks_form_chain(av, bv, aj);
                    lemma_block_bounds(av, bv, aj, k - 1);
                    let c = bs.drop_last();
                    assert(bs[k - 1] == c[k - 1]);
                    if k < c.len() {
                        assert(bs[k as int] == c[k as int]);
                    } else {
                        assert(bs[k as int] == bs.last());
                    }
                }
            }
            matches = matches + blocks[k].size;
            k = k + 1;
        }
        proof {
            assert(bs.take(k as int) =~= bs);
        }
        calculate_ratio(matches, la, self.b.len())
    }

    /// An upper bound on [`ratio`](Self::ratio): how many elements the two
    /// sequences share when order is ignored.
    pub fn quick_ratio(&self) -> (r: Ratio)
        requires
            self.wf(),
        ensures
            r.den > 0,
            r@ == quick_similarity(self.seq1(), self.seq2()),
    {
        let ghost av = self.seq1();
        let ghost bv = self.seq2();
        let lb: usize = self.b.len();
        let classes = Classes::build(&self.b);
        let mut avail: Vec<usize> = Vec::new();
        let mut c: usize = 0;
        while c < classes.lists.len()
            invariant
                c <= classes.lists@.len(),
                avail@.len() == c,
                forall|d: int| 0 <= d < c ==> avail@[d] == classes.lists@[d]@.len(),
            decreases classes.lists@.len() - c,
        {
            avail.push(classes.lists[c].len());
            c = c + 1;
        }
        proof {
            assert(bv.take(lb as int) =~= bv);
            assert(av.take(0) =~= Seq::<T::V>::empty());
            assert forall|d: int| 0 <= d < avail@.len() implies #[trigger] avail@[d] == count_of(
                bv,
                bv[classes.heads@[d] as int],
            ) by {
                assert(classes.heads@[d] < lb);
            }
        }
        let mut matches: usize = 0;
        let mut i: usize = 0;
        while i < self.a.len()
            invariant
                i <= self.a@.len(),
                lb == self.b@.len(),
                av == views(self.a@),
                bv == views(self.b@),
                classes.covers(bv, lb as int),
                avail@.len() == classes.heads@.len(),
                matches <= i,
                matches == common_count(av.take(i as int), bv),
                forall|d: int| #![trigger avail@[d]]
                    0 <= d < avail@.len() ==> {
                        let x = bv[classes.heads@[d] as int];
                        let used = count_of(av.take(i as int), x);
                        let have = count_of(bv, x);
                        avail@[d] == if used < have {
                            have - used
                        } else {
                            0
                        }
                    },
            decreases self.a@.len() - i,
        {
            let ghost avail0 = avail@;
            let found = classes.class_of(&self.b, Ghost(lb as int), &self.a[i]);
            let ghost x = av[i as int];
            proof {
                assert(av.take(i + 1).drop_last() =~= av.take(i as int));
                assert(av.take(i + 1).last() == x);
                if found is None {
                    lemma_lists_none(bv, lb as int, x);
                    assert(bv.take(lb as int) =~= bv);
                }
            }
            match found {
                Some(c) => {
                    let n: usize = avail[c];
                    if n > 0 {
                        avail.set(c, n - 1);
                        matches = matches + 1;
                    }
                },
                None => {},
            }
            proof {
                assert forall|d: int| #![trigger avail@[d]] 0 <= d < avail@.len() implies {
                    let y = bv[classes.heads@[d] as int];
                    let used = count_of(av.take(i + 1), y);
                    let have = count_of(bv, y);
                    avail@[d] == if used < have {
                        have - used
                    } else {
                        0
                    }
                } by {
                    let y = bv[classes.heads@[d] as int];
                    lemma_count_take(av, i as int, y);
                    assert(avail0[d] == avail0[d]);
                    if found is Some {
                        let c = found->0 as int;
                        if d < c {
                            assert(bv[classes.heads@[d] as int] != bv[classes.heads@[c] as int]);
                        } else if c < d {
                            assert(bv[classes.heads@[c] as int] != bv[classes.heads@[d] as int]);
                        }
                    } else {
                        assert(classes.heads@[d] < lb);
                    }
                }
            }
            i = i + 1;
        }
        proof {
            assert(av.take(i as int) =~= av);
        }
        calculate_ratio(matches, self.a.len(), lb)
    }

    /// An upper bound on [`quick_ratio`](Self::quick_ratio) from the lengths
    /// alone.
    pub fn real_quick_ratio(&self) -> (r: Ratio)
        requires
            self.wf(),
        ensures
            r.den > 0,
            r@ == real_quick_similarity(self.seq1(), self.seq2()),
    {
        let la: usize = self.a.len();
        let lb: usize = self.b.len();
        let least: usize = if la <= lb {
            la
        } else {
            lb
        };
        calculate_ratio(least, la, lb)
    }
}

proof fn lemma_total_add(x: Seq<(int, int, int)>, y: Seq<(int, int, int)>)
    ensures
        total_size(x + y) == total_size(x) + total_size(y),
    decreases y.len(),
{
    if y.len() == 0 {
        assert(x + y =~= x);
    } else {
        assert((x + y).drop_last() =~= x + y.drop_last());
        assert((x + y).last() == y.last());
        lemma_total_add(x, y.drop_last());
    }
}

proof fn lemma_merge_total(bs: Seq<(int, int, int)>, k: int, cur: (int, int, int))
    requires
        0 <= k <= bs.len(),
        cur.2 >= 0,
        forall|q: int| 0 <= q < bs.len() ==> (#[trigger] bs[q]).2 >= 0,
    ensures
        total_size(merged_from(bs, k, cur)) == cur.2 + total_size(bs.skip(k)),
    decreases bs.len() - k,
{
    let head = if cur.2 > 0 {
        seq![cur]
    } else {
        Seq::empty()
    };
    assert(total_size(head) == cur.2) by {
        if cur.2 > 0 {
            assert(head.drop_last() =~= Seq::empty());
            assert(head.last() == cur);
            reveal_with_fuel(total_size, 2);
        }
    }
    if k < bs.len() {
        assert(bs.skip(k) =~= seq![bs[k]] + bs.skip(k + 1));
        lemma_total_add(seq![bs[k]], bs.skip(k + 1));
        assert(total_size(seq![bs[k]]) == bs[k].2) by {
            assert(seq![bs[k]].drop_last() =~= Seq::empty());
            reveal_with_fuel(total_size, 2);
        }
        if cur.0 + cur.2 == bs[k].0 && cur.1 + cur.2 == bs[k].1 {
            lemma_merge_total(bs, k + 1, (cur.0, cur.1, cur.2 + bs[k].2));
        } else {
            lemma_merge_total(bs, k + 1, bs[k]);
            lemma_total_add(head, merged_from(bs, k + 1, bs[k]));
        }
    } else {
        assert(bs.skip(k).len() == 0);
    }
}

proof fn lemma_count_add<V>(s: Seq<V>, t: Seq<V>, x: V)
    ensures
        count_of(s + t, x) == count_of(s, x) + count_of(t, x),
    decreases t.len(),
{
    if t.len() == 0 {
        assert(s + t =~= s);
    } else {
        assert((s + t).drop_last() =~= s + t.drop_last());
        assert((s + t).last() == t.last());
        lemma_count_add(s, t.drop_last(), x);
    }
}

proof fn lemma_count_remove<V>(s: Seq<V>, i: int, x: V)
    requires
        0 <= i < s.len(),
    ensures
        count_of(s.remove(i), x) + if s[i] == x {
            1nat
        } else {
            0
        } == count_of(s, x),
{
    let l = s.take(i);
    let r = s.skip(i + 1);
    assert(s =~= l + (seq![s[i]] + r));
    assert(s.remove(i) =~= l + r);
    lemma_count_add(l, seq![s[i]] + r, x);
    lemma_count_add(seq![s[i]], r, x);
    lemma_count_add(l, r, x);
    assert(count_of(seq![s[i]], x) == if s[i] == x {
        1nat
    } else {
        0
    }) by {
        assert(seq![s[i]].drop_last() =~= Seq::empty());
        reveal_with_fuel(count_of, 2);
    }
}

proof fn lemma_count_positive<V>(s: Seq<V>, x: V)
    requires
        count_of(s, x) > 0,
    ensures
        exists|i: int| 0 <= i < s.len() && s[i] == x,
    decreases s.len(),
{
    if s.last() != x {
        lemma_count_positive(s.drop_last(), x);
        let i = choose|i: int| 0 <= i < s.drop_last().len() && s.drop_last()[i] == x;
        assert(s[i] == x);
    } else {
        assert(s[s.len() - 1] == x);
    }
}

/// Whether `c` holds no element more often than `s` does.
spec fn dominated<V>(c: Seq<V>, s: Seq<V>) -> bool {
    forall|x: V| #[trigger] count_of(c, x) <= count_of(s, x)
}

proof fn lemma_common_is_most<V>(a: Seq<V>, b: Seq<V>, c: Seq<V>)
    requires
        dominated(c, a),
        dominated(c, b),
    ensures
        c.len() <= common_count(a, b),
    decreases a.len(),
{
    if a.len() == 0 {
        if c.len() > 0 {
            assert(count_of(c, c.last()) >= 1);
            assert(count_of(c, c.last()) <= count_of(a, c.last()));
        }
    } else {
        let rest = a.drop_last();
        let x = a.last();
        assert(count_of(c, x) <= count_of(a, x));
        if count_of(c, x) <= count_of(rest, x) {
            assert forall|y: V| #[trigger] count_of(c, y) <= count_of(rest, y) by {
                assert(count_of(c, y) <= count_of(a, y));
            }
            lemma_common_is_most(rest, b, c);
        } else {
            lemma_count_positive(c, x);
            let i = choose|i: int| 0 <= i < c.len() && c[i] == x;
            let d = c.remove(i);
            assert forall|y: V| #[trigger] count_of(d, y) <= count_of(rest, y) && count_of(d, y)
                <= count_of(b, y) by {
                lemma_count_remove(c, i, y);
                assert(count_of(c, y) <= count_of(a, y));
                assert(count_of(c, y) <= count_of(b, y));
            }
            lemma_common_is_most(rest, b, d);
            assert(count_of(c, x) <= count_of(b, x));
        }
    }
}

proof fn lemma_common_at_most<V>(a: Seq<V>, b: Seq<V>)
    ensures
        common_count(a, b) <= a.len(),
    decreases a.len(),
{
    if a.len() > 0 {
        lemma_common_at_most(a.drop_last(), b);
    }
}

/// The elements of `a` that find a partner in `b`.
spec fn common_picks<V>(a: Seq<V>, b: Seq<V>) -> Seq<V>
    decreases a.len(),
{
    if a.len() == 0 {
        Seq::empty()
    } else if count_of(a.drop_last(), a.last()) < count_of(b, a.last()) {
        common_picks(a.drop_last(), b).push(a.last())
    } else {
        common_picks(a.drop_last(), b)
    }
}

proof fn lemma_common_picks<V>(a: Seq<V>, b: Seq<V>)
    ensures
        common_picks(a, b).len() == common_count(a, b),
        forall|x: V| #[trigger]
            count_of(common_picks(a, b), x) == if count_of(a, x) < count_of(b, x) {
                count_of(a, x)
            } else {
                count_of(b, x)
            },
    decreases a.len(),
{
    if a.len() > 0 {
        let rest = a.drop_last();
        lemma_common_picks(rest, b);
        let c0 = common_picks(rest, b);
        let c = common_picks(a, b);
        assert forall|x: V| #[trigger]
            count_of(c, x) == if count_of(a, x) < count_of(b, x) {
                count_of(a, x)
            } else {
                count_of(b, x)
            } by {
            assert(count_of(c0, x) == if count_of(rest, x) < count_of(b, x) {
                count_of(rest, x)
            } else {
                count_of(b, x)
            });
            if count_of(rest, a.last()) < count_of(b, a.last()) {
                assert(c.drop_last() =~= c0);
                assert(c.last() == a.last());
            }
        }
    }
}

/// The elements of `s` in the blocks `bs`, taken at the first or the second
/// position of each.
spec fn picked<V>(s: Seq<V>, bs: Seq<(int, int, int)>, first: bool) -> Seq<V>
    decreases bs.len(),
{
    if bs.len() == 0 {
        Seq::empty()
    } else {
        let m = bs.last();
        let at = if first {
            m.0
        } else {
            m.1
        };
        picked(s, bs.drop_last(), first) + s.subrange(at, at + m.2)
    }
}

proof fn lemma_picked<V>(
    a: Seq<V>,
    b: Seq<V>,
    w: Window,
    bs: Seq<(int, int, int)>,
    s: Seq<V>,
    first: bool,
)
    requires
        is_block_chain(a, b, w, bs),
        w == whole(a, b),
        s == if first {
            a
        } else {
            b
        },
    ensures
        picked(s, bs, first).len() == total_size(bs),
        ({
            let end = if bs.len() == 0 {
                0
            } else if first {
                bs.last().0 + bs.last().2
            } else {
                bs.last().1 + bs.last().2
            };
            0 <= end <= s.len() && dominated(picked(s, bs, first), s.take(end))
        }),
    decreases bs.len(),
{
    if bs.len() == 0 {
        assert(s.take(0) =~= Seq::empty());
    } else {
        let rest = bs.drop_last();
        let m = bs.last();
        assert(bs[bs.len() - 1] == m);
        assert(is_block(a, b, w, m));
        assert forall|k: int| 0 <= k < rest.len() implies is_block(a, b, w, #[trigger] rest[k]) by {
            assert(rest[k] == bs[k]);
        }
        assert forall|p: int, q: int| 0 <= p < q < rest.len() implies (#[trigger] rest[p]).0
            + rest[p].2 <= (#[trigger] rest[q]).0 && rest[p].1 + rest[p].2 <= rest[q].1 by {
            assert(rest[p] == bs[p] && rest[q] == bs[q]);
        }
        lemma_picked(a, b, w, rest, s, first);
        let at = if first {
            m.0
        } else {
            m.1
        };
        let end0 = if rest.len() == 0 {
            0
        } else if first {
            rest.last().0 + rest.last().2
        } else {
            rest.last().1 + rest.last().2
        };
        if rest.len() > 0 {
            assert(rest.last() == bs[bs.len() - 2]);
        }
        let end = at + m.2;
        let piece = s.subrange(at, end);
        assert(s.take(end) =~= s.take(end0) + (s.subrange(end0, at) + piece));
        assert forall|x: V| #[trigger]
            count_of(picked(s, bs, first), x) <= count_of(s.take(end), x) by {
            lemma_count_add(picked(s, rest, first), piece, x);
            lemma_count_add(s.take(end0), s.subrange(end0, at) + piece, x);
            lemma_count_add(s.subrange(end0, at), piece, x);
            assert(count_of(picked(s, rest, first), x) <= count_of(s.take(end0), x));
        }
    }
}

proof fn lemma_picked_same<V>(a: Seq<V>, b: Seq<V>, w: Window, bs: Seq<(int, int, int)>)
    requires
        is_block_chain(a, b, w, bs),
        w == whole(a, b),
    ensures
        picked(a, bs, true) == picked(b, bs, false),
    decreases bs.len(),
{
    if bs.len() > 0 {
        let rest = bs.drop_last();
        let m = bs.last();
        assert(bs[bs.len() - 1] == m);
        assert(is_block(a, b, w, m));
        assert forall|k: int| 0 <= k < rest.len() implies is_block(a, b, w, #[trigger] rest[k]) by {
            assert(rest[k] == bs[k]);
        }
        assert forall|p: int, q: int| 0 <= p < q < rest.len() implies (#[trigger] rest[p]).0
            + rest[p].2 <= (#[trigger] rest[q]).0 && rest[p].1 + rest[p].2 <= rest[q].1 by {
            assert(rest[p] == bs[p] && rest[q] == bs[q]);
        }
        lemma_picked_same(a, b, w, rest);
        assert(a.subrange(m.0, m.0 + m.2) =~= b.subrange(m.1, m.1 + m.2)) by {
            assert forall|t: int| 0 <= t < m.2 implies #[trigger] a.subrange(m.0, m.0 + m.2)[t]
                == b.subrange(m.1, m.1 + m.2)[t] by {
                assert(a[m.0 + t] == b[m.1 + t]);
            }
        }
    }
}

proof fn lemma_dominated_take<V>(c: Seq<V>, s: Seq<V>, n: int)
    requires
        0 <= n <= s.len(),
        dominated(c, s.take(n)),
    ensures
        dominated(c, s),
{
    assert forall|x: V| #[trigger] count_of(c, x) <= count_of(s, x) by {
        assert(s =~= s.take(n) + s.skip(n));
        lemma_count_add(s.take(n), s.skip(n), x);
        assert(count_of(c, x) <= count_of(s.take(n), x));
    }
}

/// The matching blocks cover no more elements than the two sequences share when
/// order is ignored, and those are no more than the shorter sequence has.
pub proof fn matches_bounded<V>(a: Seq<V>, b: Seq<V>, autojunk: bool)
    ensures
        0 <= total_size(matching_blocks(a, b, autojunk)) <= common_count(a, b),
        common_count(a, b) <= a.len(),
        common_count(a, b) <= b.len(),
{
    matching_blocks_form_chain(a, b, autojunk);
    let all = matching_blocks(a, b, autojunk);
    let bs = all.drop_last();
    let w = whole(a, b);
    assert(all =~= bs.push(all.last()));
    lemma_picked(a, b, w, bs, a, true);
    lemma_picked(a, b, w, bs, b, false);
    lemma_picked_same(a, b, w, bs);
    let c = picked(a, bs, true);
    lemma_dominated_take(
        c,
        a,
        if bs.len() == 0 {
            0
        } else {
            bs.last().0 + bs.last().2
        },
    );
    lemma_dominated_take(
        c,
        b,
        if bs.len() == 0 {
            0
        } else {
            bs.last().1 + bs.last().2
        },
    );
    lemma_common_is_most(a, b, c);
    lemma_common_at_most(a, b);
    let d = common_picks(a, b);
    lemma_common_picks(a, b);
    assert(dominated(d, b));
    lemma_common_is_most(b, b, d);
    lemma_common_at_most(b, b);
}

/// The quick ratios are upper bounds: the similarity never exceeds the first,
/// nor the first the second.
pub proof fn quick_ratios_bound_ratio<V>(a: Seq<V>, b: Seq<V>, autojunk: bool)
    ensures
        !exceeds(similarity(a, b, autojunk), quick_similarity(a, b)),
        !exceeds(quick_similarity(a, b), real_quick_similarity(a, b)),
{
    matches_bounded(a, b, autojunk);
    let t = (a.len() + b.len()) as int;
    let x = total_size(matching_blocks(a, b, autojunk));
    let y = common_count(a, b) as int;
    let z = if a.len() <= b.len() {
        a.len() as int
    } else {
        b.len() as int
    };
    assert((2 * x) * t <= (2 * y) * t && (2 * y) * t <= (2 * z) * t) by (nonlinear_arith)
        requires
            x <= y <= z,
            t >= 0,
    ;
}

/// Whether a segment lies in the two sequences and is what its tag says: equal
/// stretches, a deletion, an insertion, or a replacement of something by
/// something.
pub open spec fn is_segment<V>(a: Seq<V>, b: Seq<V>, c: (OpTag, int, int, int, int)) -> bool {
    &&& 0 <= c.1 <= c.2 <= a.len()
    &&& 0 <= c.3 <= c.4 <= b.len()
    &&& match c.0 {
        OpTag::Equal => c.1 < c.2 && a.subrange(c.1, c.2) == b.subrange(c.3, c.4),
        OpTag::Delete => c.1 < c.2 && c.3 == c.4,
        OpTag::Insert => c.1 == c.2 && c.3 < c.4,
        OpTag::Replace => c.1 < c.2 && c.3 < c.4,
    }
}

/// Whether the segments lead from `(i, j)` to the ends of the two sequences,
/// each beginning where the one before it ended.
pub open spec fn is_path<V>(
    a: Seq<V>,
    b: Seq<V>,
    codes: Seq<(OpTag, int, int, int, int)>,
    i: int,
    j: int,
) -> bool
    decreases codes.len(),
{
    if codes.len() == 0 {
        i == a.len() && j == b.len()
    } else {
        let c = codes[0];
        is_segment(a, b, c) && c.1 == i && c.3 == j && is_path(a, b, codes.drop_first(), c.2, c.4)
    }
}

proof fn lemma_opcodes_path<V>(
    a: Seq<V>,
    b: Seq<V>,
    bs: Seq<(int, int, int)>,
    k: int,
    i: int,
    j: int,
)
    requires
        bs.len() > 0,
        bs.last() == (a.len() as int, b.len() as int, 0int),
        is_block_chain(a, b, whole(a, b), bs.drop_last()),
        0 <= k <= bs.len(),
        k < bs.len() ==> 0 <= i <= bs[k].0 && 0 <= j <= bs[k].1,
        k == bs.len() ==> i == a.len() && j == b.len(),
    ensures
        is_path(a, b, opcodes_from(bs, k, i, j), i, j),
    decreases bs.len() - k,
{
    if k < bs.len() {
        let m = bs[k];
        let c = bs.drop_last();
        if k < c.len() {
            assert(m == c[k]);
            assert(is_block(a, b, whole(a, b), c[k]));
            assert(a.subrange(m.0, m.0 + m.2) =~= b.subrange(m.1, m.1 + m.2)) by {
                assert forall|t: int| 0 <= t < m.2 implies #[trigger] a.subrange(
                    m.0,
                    m.0 + m.2,
                )[t] == b.subrange(m.1, m.1 + m.2)[t] by {
                    assert(a[m.0 + t] == b[m.1 + t]);
                }
            }
            if k + 1 < c.len() {
                assert(bs[k + 1] == c[k + 1]);
                assert(is_block(a, b, whole(a, b), c[k + 1]));
            } else {
                assert(bs[k + 1] == bs.last());
            }
        } else {
            assert(m == bs.last());
        }
        lemma_opcodes_path(a, b, bs, k + 1, m.0 + m.2, m.1 + m.2);
        let rest = opcodes_from(bs, k + 1, m.0 + m.2, m.1 + m.2);
        let g = gap_code(i, j, m);
        let q = block_code(m);
        let tail = q + rest;
        if q.len() == 0 {
            assert(tail =~= rest);
        } else {
            assert(tail.drop_first() =~= rest);
            assert(tail[0] == q[0]);
        }
        assert(is_path(a, b, tail, m.0, m.1));
        let all = g + q + rest;
        assert(all =~= g + tail);
        if g.len() == 0 {
            assert(all =~= tail);
            assert(i == m.0 && j == m.1);
        } else {
            assert(all.drop_first() =~= tail);
            assert(all[0] == g[0]);
        }
    }
}

/// The segments of a comparison lead from the starts of the two sequences to
/// their ends without gap or overlap.
pub proof fn opcodes_form_path<V>(a: Seq<V>, b: Seq<V>, autojunk: bool)
    ensures
        is_path(a, b, opcodes(a, b, autojunk), 0, 0),
{
    matching_blocks_form_chain(a, b, autojunk);
    let bs = matching_blocks(a, b, autojunk);
    let c = bs.drop_last();
    if c.len() > 0 {
        assert(bs[0] == c[0]);
        assert(is_block(a, b, whole(a, b), c[0]));
    } else {
        assert(bs[0] == bs.last());
    }
    lemma_opcodes_path(a, b, bs, 0, 0, 0);
}

} // verus!
