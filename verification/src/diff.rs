//! Shortest edit scripts over sequences of interned tokens (Myers).
use crate::transcript::{
    curr_of, deletes, edits, inserts, keeps, lemma_concat, lemma_single, lemma_stretch, prev_of,
    Step,
};
use crate::text::texts;
use vstd::hash_map::StringHashMap;
use vstd::prelude::*;

verus! {

/// One edit of a script. A `Keep` or `Delete` holds an element of the first
/// sequence, an `Insert` one of the second.
#[derive(Debug, Clone, Copy, PartialEq, Eq, Structural)]
pub enum DiffOp {
    Keep(u32),
    Delete(u32),
    Insert(u32),
}

impl View for DiffOp {
    type V = Step<u32>;

    open spec fn view(&self) -> Step<u32> {
        match *self {
            DiffOp::Keep(v) => Step::Keep(v),
            DiffOp::Delete(v) => Step::Delete(v),
            DiffOp::Insert(v) => Step::Insert(v),
        }
    }
}

/// The view of a list of edits.
pub open spec fn steps(v: Seq<DiffOp>) -> Seq<Step<u32>> {
    v.map_values(|d: DiffOp| d@)
}

/// How far along `a` equal elements carry from the point `(x, y)`.
pub open spec fn snake(a: Seq<u32>, b: Seq<u32>, x: int, y: int) -> int
    decreases a.len() - x,
{
    if 0 <= x < a.len() && 0 <= y < b.len() && a[x] == b[y] {
        snake(a, b, x + 1, y + 1)
    } else {
        x
    }
}

/// Whether the furthest point on diagonal `k` with `d` edits is reached by an
/// insertion, from the diagonal above, rather than by a deletion.
pub open spec fn goes_down(a: Seq<u32>, b: Seq<u32>, d: int, k: int) -> bool
    decreases d, 0int,
{
    d > 0 && (k == -d || (k != d && furthest(a, b, d - 1, k - 1) < furthest(a, b, d - 1, k + 1)))
}

/// Where the last run of equal elements on the way to the furthest point begins.
pub open spec fn run_start(a: Seq<u32>, b: Seq<u32>, d: int, k: int) -> int
    decreases d, 1int,
{
    if d <= 0 {
        0
    } else if goes_down(a, b, d, k) {
        furthest(a, b, d - 1, k + 1)
    } else {
        furthest(a, b, d - 1, k - 1) + 1
    }
}

/// The furthest position along `a` that `d` edits reach on the diagonal `k`, on
/// which the positions along `a` and `b` differ by `k`.
pub open spec fn furthest(a: Seq<u32>, b: Seq<u32>, d: int, k: int) -> int
    decreases d, 2int,
{
    snake(a, b, run_start(a, b, d, k), run_start(a, b, d, k) - k)
}

/// The edits that lead to the furthest point on diagonal `k` with `d` edits.
pub open spec fn script(a: Seq<u32>, b: Seq<u32>, d: int, k: int) -> Seq<Step<u32>>
    decreases d,
{
    let s = run_start(a, b, d, k);
    let run = keeps(a, s, furthest(a, b, d, k));
    if d <= 0 {
        run
    } else if goes_down(a, b, d, k) {
        script(a, b, d - 1, k + 1) + seq![Step::Insert(b[s - k - 1])] + run
    } else {
        script(a, b, d - 1, k - 1) + seq![Step::Delete(a[s - 1])] + run
    }
}

/// Whether `k` is a diagonal that `d` edits can end on.
pub open spec fn on_level(d: int, k: int) -> bool {
    -d <= k <= d && (d - k) % 2 == 0
}

/// The diagonal on which both sequences end.
pub open spec fn last_diagonal(a: Seq<u32>, b: Seq<u32>) -> int {
    a.len() - b.len()
}

/// Whether `d` edits reach the ends of both sequences.
pub open spec fn reaches_end(a: Seq<u32>, b: Seq<u32>, d: int) -> bool {
    on_level(d, last_diagonal(a, b)) && furthest(a, b, d, last_diagonal(a, b)) >= a.len()
}

/// Whether `d` is the least number of edits that reaches the ends.
pub open spec fn is_distance(a: Seq<u32>, b: Seq<u32>, d: int) -> bool {
    reaches_end(a, b, d) && forall|e: int| 0 <= e < d ==> !#[trigger] reaches_end(a, b, e)
}

/// The least number of edits that reaches the ends.
pub open spec fn distance(a: Seq<u32>, b: Seq<u32>) -> int {
    choose|d: int| is_distance(a, b, d)
}

/// The script that a comparison yields.
pub open spec fn shortest_script(a: Seq<u32>, b: Seq<u32>) -> Seq<Step<u32>> {
    if a.len() == 0 {
        inserts(b, 0, b.len() as int)
    } else if b.len() == 0 {
        deletes(a, 0, a.len() as int)
    } else {
        script(a, b, distance(a, b), last_diagonal(a, b))
    }
}

proof fn lemma_snake(a: Seq<u32>, b: Seq<u32>, x: int, y: int)
    ensures
        snake(a, b, x, y) >= x,
        x <= a.len() ==> snake(a, b, x, y) <= a.len(),
        x >= a.len() || y >= b.len() ==> snake(a, b, x, y) == x,
        y <= b.len() ==> snake(a, b, x, y) - x + y <= b.len(),
        ({
            let e = snake(a, b, x, y);
            !(0 <= e < a.len() && 0 <= e - x + y < b.len() && a[e] == b[e - x + y])
        }),
        forall|t: int|
            x <= t < snake(a, b, x, y) ==> 0 <= t < a.len() && 0 <= t - x + y < b.len() && #[trigger] a[t]
                == b[t - x + y],
    decreases a.len() - x,
{
    if 0 <= x < a.len() && 0 <= y < b.len() && a[x] == b[y] {
        lemma_snake(a, b, x + 1, y + 1);
        assert forall|t: int| x <= t < snake(a, b, x, y) implies 0 <= t < a.len() && 0 <= t - x + y
            < b.len() && #[trigger] a[t] == b[t - x + y] by {
            if t > x {
                assert(a[t] == b[t - (x + 1) + (y + 1)]);
            }
        }
    }
}

proof fn lemma_furthest_nonneg(a: Seq<u32>, b: Seq<u32>, d: int, k: int)
    requires
        on_level(d, k),
    ensures
        run_start(a, b, d, k) >= 0,
        run_start(a, b, d, k) >= k,
        furthest(a, b, d, k) >= run_start(a, b, d, k),
    decreases d,
{
    if d > 0 {
        if goes_down(a, b, d, k) {
            lemma_furthest_nonneg(a, b, d - 1, k + 1);
        } else {
            lemma_furthest_nonneg(a, b, d - 1, k - 1);
        }
    }
    lemma_snake(a, b, run_start(a, b, d, k), run_start(a, b, d, k) - k);
}

proof fn lemma_start_most(a: Seq<u32>, b: Seq<u32>, d: int, k: int)
    requires
        d > 0,
        on_level(d, k),
    ensures
        k > -d ==> run_start(a, b, d, k) >= furthest(a, b, d - 1, k - 1) + 1,
        k < d ==> run_start(a, b, d, k) >= furthest(a, b, d - 1, k + 1),
        furthest(a, b, d, k) >= run_start(a, b, d, k),
{
    lemma_snake(a, b, run_start(a, b, d, k), run_start(a, b, d, k) - k);
}

/// Any transcript's point is no further than the furthest one with as many edits
/// on its diagonal.
proof fn lemma_furthest_is_most(a: Seq<u32>, b: Seq<u32>, t: Seq<Step<u32>>)
    requires
        prev_of(t).len() <= a.len(),
        prev_of(t) == a.take(prev_of(t).len() as int),
        curr_of(t).len() <= b.len(),
        curr_of(t) == b.take(curr_of(t).len() as int),
    ensures
        ({
            let x = prev_of(t).len() as int;
            let y = curr_of(t).len() as int;
            let e = edits(t) as int;
            on_level(e, x - y) && furthest(a, b, e, x - y) >= x
        }),
    decreases t.len(),
{
    let x = prev_of(t).len() as int;
    let y = curr_of(t).len() as int;
    let e = edits(t) as int;
    if t.len() == 0 {
        lemma_furthest_nonneg(a, b, 0, 0);
    } else {
        let r = t.drop_last();
        let px = prev_of(r).len() as int;
        let py = curr_of(r).len() as int;
        assert(prev_of(r) =~= a.take(px)) by {
            assert(prev_of(t).take(px) =~= prev_of(r));
            assert(a.take(x).take(px) =~= a.take(px));
        }
        assert(curr_of(r) =~= b.take(py)) by {
            assert(curr_of(t).take(py) =~= curr_of(r));
            assert(b.take(y).take(py) =~= b.take(py));
        }
        lemma_furthest_is_most(a, b, r);
        match t.last() {
            Step::Keep(v) => {
                assert(prev_of(t)[px] == v && curr_of(t)[py] == v);
                assert(a[px] == v && b[py] == v);
                let s = run_start(a, b, e, x - y);
                lemma_snake(a, b, s, s - (x - y));
            },
            Step::Delete(v) => {
                lemma_start_most(a, b, e, x - y);
            },
            Step::Insert(v) => {
                lemma_start_most(a, b, e, x - y);
            },
        }
    }
}

proof fn lemma_past_first_end(a: Seq<u32>, b: Seq<u32>, d: int, k: int, r: int)
    requires
        on_level(d, k),
        r >= 0,
        furthest(a, b, d, k) >= a.len() + r,
    ensures
        on_level(d - r, k - r),
        furthest(a, b, d - r, k - r) >= a.len(),
    decreases d,
{
    if r > 0 {
        let s = run_start(a, b, d, k);
        lemma_snake(a, b, s, s - k);
        if d > 0 {
            if goes_down(a, b, d, k) {
                lemma_past_first_end(a, b, d - 1, k + 1, r);
                lemma_start_most(a, b, d - r, k - r);
            } else {
                lemma_past_first_end(a, b, d - 1, k - 1, r - 1);
            }
        }
    }
}

proof fn lemma_past_second_end(a: Seq<u32>, b: Seq<u32>, d: int, k: int, r: int)
    requires
        on_level(d, k),
        r >= 0,
        furthest(a, b, d, k) - k >= b.len() + r,
    ensures
        on_level(d - r, k + r),
        furthest(a, b, d - r, k + r) - (k + r) >= b.len(),
    decreases d,
{
    if r > 0 {
        let s = run_start(a, b, d, k);
        lemma_snake(a, b, s, s - k);
        if d > 0 {
            if goes_down(a, b, d, k) {
                lemma_past_second_end(a, b, d - 1, k + 1, r - 1);
            } else {
                lemma_past_second_end(a, b, d - 1, k - 1, r);
                lemma_start_most(a, b, d - r, k + r);
            }
        }
    }
}

/// Past both ends on any diagonal means at both ends with no more edits.
proof fn lemma_past_ends(a: Seq<u32>, b: Seq<u32>, d: int, k: int)
    requires
        on_level(d, k),
        furthest(a, b, d, k) >= a.len(),
        furthest(a, b, d, k) - k >= b.len(),
    ensures
        k == last_diagonal(a, b) ==> reaches_end(a, b, d),
        k != last_diagonal(a, b) ==> exists|e: int| 0 <= e < d && #[trigger] reaches_end(a, b, e),
{
    let l = last_diagonal(a, b);
    if k > l {
        lemma_past_first_end(a, b, d, k, k - l);
        assert(reaches_end(a, b, d - (k - l)));
    } else if k < l {
        lemma_past_second_end(a, b, d, k, l - k);
        assert(reaches_end(a, b, d - (l - k)));
    }
}

proof fn lemma_all_edits_reach(a: Seq<u32>, b: Seq<u32>)
    ensures
        reaches_end(a, b, (a.len() + b.len()) as int),
{
    let x = deletes(a, 0, a.len() as int);
    let y = inserts(b, 0, b.len() as int);
    lemma_stretch(a, 0, a.len() as int);
    lemma_stretch(b, 0, b.len() as int);
    lemma_concat(x, y);
    assert(prev_of(x + y) =~= a);
    assert(curr_of(x + y) =~= b);
    assert(a.take(a.len() as int) =~= a);
    assert(b.take(b.len() as int) =~= b);
    lemma_furthest_is_most(a, b, x + y);
}

proof fn lemma_distance_unique(a: Seq<u32>, b: Seq<u32>, d: int)
    requires
        is_distance(a, b, d),
    ensures
        distance(a, b) == d,
{
    let e = distance(a, b);
    assert(is_distance(a, b, e));
    if e < d {
        assert(!reaches_end(a, b, e));
    }
    if d < e {
        assert(!reaches_end(a, b, d));
    }
}

proof fn lemma_distance_exists(a: Seq<u32>, b: Seq<u32>, d: int)
    requires
        d >= 0,
        reaches_end(a, b, d),
    ensures
        is_distance(a, b, distance(a, b)),
        0 <= distance(a, b) <= d,
    decreases d,
{
    if exists|e: int| 0 <= e < d && #[trigger] reaches_end(a, b, e) {
        let e = choose|e: int| 0 <= e < d && #[trigger] reaches_end(a, b, e);
        lemma_distance_exists(a, b, e);
    } else {
        assert(is_distance(a, b, d));
        lemma_distance_unique(a, b, d);
    }
}

/// What the script to a point inside both sequences leads from and to.
proof fn lemma_script(a: Seq<u32>, b: Seq<u32>, d: int, k: int)
    requires
        on_level(d, k),
        furthest(a, b, d, k) <= a.len(),
        furthest(a, b, d, k) - k <= b.len(),
    ensures
        ({
            let x = furthest(a, b, d, k);
            let t = script(a, b, d, k);
            prev_of(t) == a.take(x) && curr_of(t) == b.take(x - k) && edits(t) == d
        }),
    decreases d,
{
    let s = run_start(a, b, d, k);
    let x = furthest(a, b, d, k);
    let t = script(a, b, d, k);
    let run = keeps(a, s, x);
    lemma_furthest_nonneg(a, b, d, k);
    lemma_snake(a, b, s, s - k);
    lemma_stretch(a, s, x);
    assert(a.subrange(s, x) =~= b.subrange(s - k, x - k)) by {
        assert forall|i: int| 0 <= i < x - s implies #[trigger] a.subrange(s, x)[i] == b.subrange(
            s - k,
            x - k,
        )[i] by {
            assert(a[s + i] == b[(s + i) - s + (s - k)]);
        }
    }
    if d == 0 {
        assert(a.take(x) =~= a.subrange(0, x));
        assert(b.take(x) =~= b.subrange(0, x));
    } else if goes_down(a, b, d, k) {
        lemma_furthest_nonneg(a, b, d - 1, k + 1);
        lemma_script(a, b, d - 1, k + 1);
        let r = script(a, b, d - 1, k + 1);
        let m: Seq<Step<u32>> = seq![Step::Insert(b[s - k - 1])];
        lemma_single(Step::Insert(b[s - k - 1]));
        lemma_concat(r, m);
        lemma_concat(r + m, run);
        assert(prev_of(t) =~= a.take(x));
        assert(curr_of(t) =~= b.take(x - k));
    } else {
        lemma_furthest_nonneg(a, b, d - 1, k - 1);
        lemma_script(a, b, d - 1, k - 1);
        let r = script(a, b, d - 1, k - 1);
        let m: Seq<Step<u32>> = seq![Step::Delete(a[s - 1])];
        lemma_single(Step::Delete(a[s - 1]));
        lemma_concat(r, m);
        lemma_concat(r + m, run);
        assert(prev_of(t) =~= a.take(x));
        assert(curr_of(t) =~= b.take(x - k));
    }
}

proof fn lemma_ends_exactly(a: Seq<u32>, b: Seq<u32>, d: int)
    requires
        d >= 0,
        is_distance(a, b, d),
    ensures
        furthest(a, b, d, last_diagonal(a, b)) == a.len(),
{
    let l = last_diagonal(a, b);
    let s = run_start(a, b, d, l);
    lemma_snake(a, b, s, s - l);
    if furthest(a, b, d, l) > a.len() {
        assert(s > a.len());
        // The point before it was past both ends with fewer edits.
        if goes_down(a, b, d, l) {
            lemma_past_ends(a, b, d - 1, l + 1);
        } else if d > 0 {
            lemma_past_ends(a, b, d - 1, l - 1);
        }
        let e = choose|e: int| 0 <= e < d - 1 && #[trigger] reaches_end(a, b, e);
        assert(!reaches_end(a, b, e));
    }
}

/// A script reconstructs both sequences: what it keeps and deletes is the first,
/// what it keeps and inserts the second.
pub proof fn script_reconstructs(a: Seq<u32>, b: Seq<u32>)
    ensures
        prev_of(shortest_script(a, b)) == a,
        curr_of(shortest_script(a, b)) == b,
{
    let n = a.len() as int;
    let m = b.len() as int;
    lemma_stretch(a, 0, n);
    lemma_stretch(b, 0, m);
    assert(a.subrange(0, n) =~= a);
    assert(b.subrange(0, m) =~= b);
    if n == 0 {
        assert(a =~= Seq::empty());
    } else if m == 0 {
        assert(b =~= Seq::empty());
    } else {
        lemma_all_edits_reach(a, b);
        lemma_distance_exists(a, b, n + m);
        let d = distance(a, b);
        lemma_ends_exactly(a, b, d);
        lemma_script(a, b, d, last_diagonal(a, b));
        assert(a.take(n) =~= a);
        assert(b.take(m) =~= b);
    }
}

/// No transcript between two sequences has fewer edits than the script.
pub proof fn script_is_shortest(a: Seq<u32>, b: Seq<u32>, t: Seq<Step<u32>>)
    requires
        prev_of(t) == a,
        curr_of(t) == b,
    ensures
        edits(shortest_script(a, b)) <= edits(t),
{
    let n = a.len() as int;
    let m = b.len() as int;
    assert(a.take(n) =~= a);
    assert(b.take(m) =~= b);
    lemma_furthest_is_most(a, b, t);
    let e = edits(t) as int;
    lemma_stretch(a, 0, n);
    lemma_stretch(b, 0, m);
    if n > 0 && m > 0 {
        assert(reaches_end(a, b, e));
        lemma_distance_exists(a, b, e);
        let d = distance(a, b);
        lemma_ends_exactly(a, b, d);
        lemma_script(a, b, d, last_diagonal(a, b));
    }
}

proof fn lemma_furthest_bound(a: Seq<u32>, b: Seq<u32>, d: int, k: int)
    requires
        on_level(d, k),
    ensures
        furthest(a, b, d, k) <= a.len() + d,
        furthest(a, b, d, k) - k <= b.len() + d,
    decreases d,
{
    let s = run_start(a, b, d, k);
    lemma_snake(a, b, s, s - k);
    if d > 0 {
        if goes_down(a, b, d, k) {
            lemma_furthest_bound(a, b, d - 1, k + 1);
        } else {
            lemma_furthest_bound(a, b, d - 1, k - 1);
        }
    }
}

/// `v` holds the furthest positions with `d` edits, diagonal `k` at `off + k`.
spec fn holds_level(v: Seq<isize>, off: int, a: Seq<u32>, b: Seq<u32>, d: int) -> bool {
    forall|k: int| #[trigger] on_level(d, k) ==> v[off + k] == furthest(a, b, d, k)
}

/// The snapshots taken before each level up to `d` was computed.
spec fn holds_trace(
    trace: Seq<Vec<isize>>,
    off: int,
    a: Seq<u32>,
    b: Seq<u32>,
    d: int,
) -> bool {
    &&& trace.len() == d + 1
    &&& forall|e: int| 0 <= e <= d ==> (#[trigger] trace[e])@.len() == 2 * off + 1
    &&& trace[0]@[off + 1] == 0
    &&& forall|e: int| 1 <= e <= d ==> holds_level((#[trigger] trace[e])@, off, a, b, e - 1)
}

proof fn lemma_regroup(p: Seq<Step<u32>>, o: Step<u32>, run: Seq<Step<u32>>, rest: Seq<Step<u32>>)
    ensures
        p + seq![o] + run + rest == p + (seq![o] + (run + rest)),
{
    assert(p + seq![o] + run + rest =~= p + (seq![o] + (run + rest)));
}

/// Follows the snapshots back from the ends and returns the script.
#[verifier::rlimit(40)]
fn backtrack(a: &[u32], b: &[u32], trace: &Vec<Vec<isize>>, offset: isize, end_d: isize) -> (ops:
    Vec<DiffOp>)
    requires
        a@.len() > 0,
        b@.len() > 0,
        offset == a@.len() + b@.len(),
        2 * offset + 1 <= isize::MAX,
        0 <= end_d <= offset,
        holds_trace(trace@, offset as int, a@, b@, end_d as int),
        is_distance(a@, b@, end_d as int),
    ensures
        steps(ops@) == shortest_script(a@, b@),
{
    let ghost off = offset as int;
    let ghost goal = script(a@, b@, end_d as int, last_diagonal(a@, b@));
    proof {
        lemma_distance_unique(a@, b@, end_d as int);
        lemma_ends_exactly(a@, b@, end_d as int);
    }
    let mut ops: Vec<DiffOp> = Vec::new();
    let mut x: isize = a.len() as isize;
    let mut y: isize = b.len() as isize;
    let mut d: isize = end_d;
    proof {
        assert(goal + steps(ops@).reverse() =~= goal);
    }
    while d > 0
        invariant
            offset == off,
            off == a@.len() + b@.len(),
            2 * offset + 1 <= isize::MAX,
            0 <= d <= end_d <= off,
            0 <= x <= a@.len(),
            0 <= y <= b@.len(),
            on_level(d as int, x - y),
            x == furthest(a@, b@, d as int, x - y),
            holds_trace(trace@, off, a@, b@, end_d as int),
            script(a@, b@, d as int, x - y) + steps(ops@).reverse() == goal,
        decreases d,
    {
        let v = &trace[d as usize];
        let k: isize = x - y;
        let ghost dd = d as int;
        let ghost kk = k as int;
        let idx: usize = (k + offset) as usize;
        proof {
            assert(holds_level(trace@[dd]@, off, a@, b@, dd - 1));
            if kk != -dd {
                assert(on_level(dd - 1, kk - 1));
            }
            if kk != dd {
                assert(on_level(dd - 1, kk + 1));
            }
        }
        let down = k == -d || (k != d && v[idx - 1] < v[idx + 1]);
        let prev_k: isize = if down {
            k + 1
        } else {
            k - 1
        };
        let prev_x: isize = v[(prev_k + offset) as usize];
        let prev_y: isize = prev_x - prev_k;
        let ghost s = run_start(a@, b@, dd, kk);
        let ghost top = x as int;
        let ghost before = steps(ops@).reverse();
        proof {
            assert(down == goes_down(a@, b@, dd, kk));
            assert(on_level(dd - 1, prev_k as int));
            lemma_furthest_nonneg(a@, b@, dd, kk);
            lemma_furthest_nonneg(a@, b@, dd - 1, prev_k as int);
            lemma_furthest_bound(a@, b@, dd - 1, prev_k as int);
            lemma_snake(a@, b@, s, s - kk);
            assert(keeps(a@, top, top) + before =~= before);
        }
        while x > prev_x && y > prev_y
            invariant
                s <= x <= top <= a@.len(),
                0 <= s,
                0 <= s - kk,
                y == x - kk,
                0 <= y <= b@.len(),
                prev_x >= 0,
                down ==> s == prev_x && s - kk == prev_y + 1,
                !down ==> s == prev_x + 1 && s - kk == prev_y,
                steps(ops@).reverse() == keeps(a@, x as int, top) + before,
            decreases x,
        {
            let ghost ops0 = ops@;
            let op = DiffOp::Keep(a[(x - 1) as usize]);
            ops.push(op);
            proof {
                assert(steps(ops@).reverse() =~= seq![op@] + steps(ops0).reverse());
                assert(a@.subrange(x - 1, top) =~= seq![a@[x - 1]] + a@.subrange(x as int, top));
                assert(keeps(a@, x - 1, top) =~= seq![op@] + keeps(a@, x as int, top));
                assert(steps(ops@).reverse() =~= keeps(a@, x - 1, top) + before);
            }
            x = x - 1;
            y = y - 1;
        }
        proof {
            assert(x == s);
        }
        let ghost ops0 = ops@;
        if x == prev_x {
            proof {
                assert(down);
            }
            let op = DiffOp::Insert(b[(y - 1) as usize]);
            ops.push(op);
            y = y - 1;
            proof {
                assert(steps(ops@).reverse() =~= seq![op@] + steps(ops0).reverse());
                lemma_regroup(script(a@, b@, dd - 1, kk + 1), op@, keeps(a@, s, top), before);
            }
        } else {
            proof {
                assert(!down);
            }
            let op = DiffOp::Delete(a[(x - 1) as usize]);
            ops.push(op);
            x = x - 1;
            proof {
                assert(steps(ops@).reverse() =~= seq![op@] + steps(ops0).reverse());
                lemma_regroup(script(a@, b@, dd - 1, kk - 1), op@, keeps(a@, s, top), before);
            }
        }
        d = d - 1;
    }
    let ghost top = x as int;
    let ghost before = steps(ops@).reverse();
    proof {
        assert(x == y);
        assert(keeps(a@, top, top) + before =~= before);
    }
    while x > 0
        invariant
            0 <= x <= top <= a@.len(),
            steps(ops@).reverse() == keeps(a@, x as int, top) + before,
        decreases x,
    {
        let ghost ops0 = ops@;
        let op = DiffOp::Keep(a[(x - 1) as usize]);
        ops.push(op);
        proof {
            assert(steps(ops@).reverse() =~= seq![op@] + steps(ops0).reverse());
            assert(a@.subrange(x - 1, top) =~= seq![a@[x - 1]] + a@.subrange(x as int, top));
            assert(keeps(a@, x - 1, top) =~= seq![op@] + keeps(a@, x as int, top));
            assert(steps(ops@).reverse() =~= keeps(a@, x - 1, top) + before);
        }
        x = x - 1;
    }
    let r = reversed(&ops);
    proof {
        assert(steps(r@) =~= steps(ops@).reverse());
    }
    r
}

/// The edits in the opposite order.
fn reversed(ops: &Vec<DiffOp>) -> (r: Vec<DiffOp>)
    ensures
        r@ == ops@.reverse(),
{
    let mut r: Vec<DiffOp> = Vec::new();
    let mut i: usize = ops.len();
    while i > 0
        invariant
            i <= ops@.len(),
            r@ == ops@.subrange(i as int, ops@.len() as int).reverse(),
        decreases i,
    {
        i = i - 1;
        r.push(ops[i]);
        proof {
            assert(ops@.subrange(i as int, ops@.len() as int).reverse() =~= ops@.subrange(
                i + 1,
                ops@.len() as int,
            ).reverse().push(ops@[i as int]));
        }
    }
    proof {
        assert(ops@.subrange(0, ops@.len() as int) =~= ops@);
    }
    r
}

/// The edits that insert or delete a whole sequence.
fn whole(s: &[u32], insert: bool) -> (r: Vec<DiffOp>)
    ensures
        steps(r@) == if insert {
            inserts(s@, 0, s@.len() as int)
        } else {
            deletes(s@, 0, s@.len() as int)
        },
{
    let mut r: Vec<DiffOp> = Vec::new();
    let mut i: usize = 0;
    while i < s.len()
        invariant
            i <= s@.len(),
            steps(r@) == if insert {
                inserts(s@, 0, i as int)
            } else {
                deletes(s@, 0, i as int)
            },
        decreases s@.len() - i,
    {
        let ghost r0 = r@;
        let op = if insert {
            DiffOp::Insert(s[i])
        } else {
            DiffOp::Delete(s[i])
        };
        r.push(op);
        proof {
            assert(steps(r@) =~= steps(r0).push(op@));
            assert(s@.subrange(0, i + 1) =~= s@.subrange(0, i as int).push(s@[i as int]));
            assert(inserts(s@, 0, i + 1) =~= inserts(s@, 0, i as int).push(
                Step::Insert(s@[i as int]),
            ));
            assert(deletes(s@, 0, i + 1) =~= deletes(s@, 0, i as int).push(
                Step::Delete(s@[i as int]),
            ));
        }
        i = i + 1;
    }
    r
}

/// A shortest edit script from `a` to `b`.
pub fn myers_diff(a: &[u32], b: &[u32]) -> (r: Vec<DiffOp>)
    requires
        2 * (a@.len() + b@.len()) + 1 <= isize::MAX,
    ensures
        steps(r@) == shortest_script(a@, b@),
{
    let n: usize = a.len();
    let m: usize = b.len();
    if n == 0 {
        return whole(b, true);
    }
    if m == 0 {
        return whole(a, false);
    }
    let max: usize = n + m;
    let offset: isize = max as isize;
    let ghost off = offset as int;
    let mut v: Vec<isize> = vec![0; 2 * max + 1];
    let mut trace: Vec<Vec<isize>> = Vec::new();
    let mut d: isize = 0;
    while d <= offset
        invariant
            n == a@.len(),
            m == b@.len(),
            n > 0,
            m > 0,
            max == n + m,
            offset == max,
            off == offset,
            2 * offset + 1 <= isize::MAX,
            0 <= d <= offset + 1,
            v@.len() == 2 * off + 1,
            d == 0 ==> v@[off + 1] == 0,
            d > 0 ==> holds_level(v@, off, a@, b@, d - 1),
            d > 0 ==> holds_trace(trace@, off, a@, b@, d - 1),
            trace@.len() == d,
            forall|e: int| 0 <= e < d ==> !#[trigger] reaches_end(a@, b@, e),
        decreases offset + 1 - d,
    {
        let ghost dd = d as int;
        let ghost trace0 = trace@;
        let snapshot = v.clone();
        proof {
            assert(snapshot@ =~= v@);
        }
        trace.push(snapshot);
        proof {
            assert forall|e: int| 1 <= e <= dd implies holds_level(
                (#[trigger] trace@[e])@,
                off,
                a@,
                b@,
                e - 1,
            ) by {
                if e < dd {
                    assert(trace@[e] == trace0[e]);
                }
            }
            assert forall|e: int| 0 <= e <= dd implies (#[trigger] trace@[e])@.len() == 2 * off
                + 1 by {
                if e < dd {
                    assert(trace@[e] == trace0[e]);
                }
            }
            if dd > 0 {
                assert(trace@[0] == trace0[0]);
            }
            assert(holds_trace(trace@, off, a@, b@, dd));
        }
        let mut k: isize = -d;
        while k <= d
            invariant
                n == a@.len(),
                m == b@.len(),
                n > 0,
                m > 0,
                max == n + m,
                offset == max,
                off == offset,
                dd == d,
                2 * offset + 1 <= isize::MAX,
                0 <= d <= offset,
                -d <= k <= d + 2,
                (d - k) % 2 == 0,
                v@.len() == 2 * off + 1,
                d == 0 ==> v@[off + 1] == 0,
                forall|q: int| #[trigger] on_level(dd - 1, q) ==> v@[off + q] == furthest(
                    a@,
                    b@,
                    dd - 1,
                    q,
                ),
                forall|q: int| #[trigger]
                    on_level(dd, q) && q < k ==> v@[off + q] == furthest(a@, b@, dd, q) && !(
                    furthest(a@, b@, dd, q) >= n && furthest(a@, b@, dd, q) - q >= m),
                holds_trace(trace@, off, a@, b@, dd),
                forall|e: int| 0 <= e < dd ==> !#[trigger] reaches_end(a@, b@, e),
            decreases d + 2 - k,
        {
            let ghost kk = k as int;
            let idx: usize = (k + offset) as usize;
            proof {
                assert(on_level(dd, kk));
                if kk != -dd {
                    assert(on_level(dd - 1, kk - 1));
                    lemma_furthest_bound(a@, b@, dd - 1, kk - 1);
                }
                if kk != dd {
                    assert(on_level(dd - 1, kk + 1));
                }
                lemma_furthest_nonneg(a@, b@, dd, kk);
                lemma_furthest_bound(a@, b@, dd, kk);
            }
            let mut x: isize = if k == -d || (k != d && v[idx - 1] < v[idx + 1]) {
                v[idx + 1]
            } else {
                v[idx - 1] + 1
            };
            proof {
                assert(x == run_start(a@, b@, dd, kk));
                assert(x - kk <= furthest(a@, b@, dd, kk) - kk);
            }
            let mut y: isize = x - k;
            while (x as usize) < n && (y as usize) < m && a[x as usize] == b[y as usize]
                invariant
                    n == a@.len(),
                    m == b@.len(),
                    0 <= x,
                    0 <= y,
                    y == x - kk,
                    x <= furthest(a@, b@, dd, kk) <= n + dd,
                    dd <= off,
                    off == n + m,
                    2 * off + 1 <= isize::MAX,
                    -dd <= kk <= dd,
                    snake(a@, b@, x as int, y as int) == furthest(a@, b@, dd, kk),
                decreases n - x,
            {
                proof {
                    lemma_snake(a@, b@, x + 1, y + 1);
                }
                x = x + 1;
                y = y + 1;
            }
            v.set(idx, x);
            proof {
                assert(x == furthest(a@, b@, dd, kk));
                assert forall|q: int| #[trigger] on_level(dd - 1, q) implies v@[off + q]
                    == furthest(a@, b@, dd - 1, q) by {
                    assert(q != kk);
                }
            }
            if x as usize >= n && y as usize >= m {
                proof {
                    lemma_past_ends(a@, b@, dd, kk);
                    if kk != last_diagonal(a@, b@) {
                        let e = choose|e: int| 0 <= e < dd && #[trigger] reaches_end(a@, b@, e);
                        assert(!reaches_end(a@, b@, e));
                    }
                    assert(is_distance(a@, b@, dd));
                }
                return backtrack(a, b, &trace, offset, d);
            }
            k = k + 2;
        }
        proof {
            assert(!reaches_end(a@, b@, dd)) by {
                if reaches_end(a@, b@, dd) {
                    let l = last_diagonal(a@, b@);
                    assert(on_level(dd, l));
                    assert(l < k);
                }
            }
            assert(holds_level(v@, off, a@, b@, dd));
        }
        d = d + 1;
    }
    proof {
        lemma_all_edits_reach(a@, b@);
        assert(!reaches_end(a@, b@, off));
    }
    Vec::new()
}

/// Whether `ids` number the texts `s` by the table `values`.
pub open spec fn numbers(ids: Seq<u32>, s: Seq<Seq<char>>, values: Seq<Seq<char>>) -> bool {
    &&& ids.len() == s.len()
    &&& forall|i: int|
        0 <= i < s.len() ==> (#[trigger] ids[i]) < values.len() && values[ids[i] as int] == s[i]
}

/// The distinct texts of `s`, in the order of their first occurrence.
pub open spec fn distinct(s: Seq<Seq<char>>) -> Seq<Seq<char>>
    decreases s.len(),
{
    if s.len() == 0 {
        Seq::empty()
    } else {
        let r = distinct(s.drop_last());
        if r.contains(s.last()) {
            r
        } else {
            r.push(s.last())
        }
    }
}

/// Looks a text up in the table, adding it where it is new.
fn intern(table: &mut StringHashMap<u32>, values: &mut Vec<String>, s: &String) -> (id: u32)
    requires
        table_ok(old(table)@, texts(old(values)@)),
        old(values)@.len() <= u32::MAX || texts(old(values)@).contains(s@),
    ensures
        table_ok(final(table)@, texts(final(values)@)),
        texts(final(values)@) == if texts(old(values)@).contains(s@) {
            texts(old(values)@)
        } else {
            texts(old(values)@).push(s@)
        },
        id < final(values)@.len(),
        texts(final(values)@)[id as int] == s@,
{
    let ghost v0 = texts(values@);
    match table.get(s.as_str()) {
        Some(id) => {
            proof {
                assert(v0[*id as int] == s@);
            }
            return *id;
        },
        None => {},
    }
    proof {
        if v0.contains(s@) {
            let k = choose|k: int| 0 <= k < v0.len() && v0[k] == s@;
            assert(table@.contains_key(v0[k]));
        }
    }
    let id: u32 = values.len() as u32;
    values.push(s.clone());
    let ghost t0 = table@;
    table.insert(s.clone(), id);
    proof {
        assert(texts(values@) =~= v0.push(s@));
        assert forall|k: int| 0 <= k < texts(values@).len() implies table@.contains_key(
            #[trigger] texts(values@)[k],
        ) && table@[texts(values@)[k]] == k by {
            if k < v0.len() {
                assert(texts(values@)[k] == v0[k]);
                assert(t0.contains_key(v0[k]));
            }
        }
    }
    id
}

/// The table maps each value to its position.
spec fn table_ok(table: Map<Seq<char>, u32>, values: Seq<Seq<char>>) -> bool {
    &&& forall|k: int|
        0 <= k < values.len() ==> table.contains_key(#[trigger] values[k]) && table[values[k]] == k
    &&& forall|s: Seq<char>| #[trigger]
        table.contains_key(s) ==> table[s] < values.len() && values[table[s] as int] == s
}

/// Numbers each text of `list` and appends the numbers to a fresh list.
fn intern_all(
    table: &mut StringHashMap<u32>,
    values: &mut Vec<String>,
    list: &[String],
    done: Ghost<Seq<Seq<char>>>,
) -> (ids: Vec<u32>)
    requires
        table_ok(old(table)@, texts(old(values)@)),
        texts(old(values)@) == distinct(done@),
        distinct(done@ + texts(list@)).len() <= u32::MAX + 1,
    ensures
        table_ok(final(table)@, texts(final(values)@)),
        texts(final(values)@) == distinct(done@ + texts(list@)),
        numbers(ids@, texts(list@), texts(final(values)@)),
        texts(old(values)@).is_prefix_of(texts(final(values)@)),
{
    let ghost lv = texts(list@);
    let ghost start = texts(values@);
    let mut ids: Vec<u32> = Vec::new();
    let mut i: usize = 0;
    proof {
        assert(done@ + lv.take(0) =~= done@);
    }
    while i < list.len()
        invariant
            i <= list@.len(),
            lv == texts(list@),
            distinct(done@ + lv).len() <= u32::MAX + 1,
            table_ok(table@, texts(values@)),
            texts(values@) == distinct(done@ + lv.take(i as int)),
            numbers(ids@, lv.take(i as int), texts(values@)),
            start.is_prefix_of(texts(values@)),
        decreases list@.len() - i,
    {
        let ghost v0 = texts(values@);
        let ghost ids0 = ids@;
        let ghost pre = done@ + lv.take(i as int);
        let ghost post = done@ + lv.take(i + 1);
        proof {
            assert(post.drop_last() =~= pre);
            assert(post.last() == lv[i as int]);
            lemma_distinct_grows(done@ + lv, post.len() as int);
            assert((done@ + lv).take(post.len() as int) =~= post);
        }
        let id = intern(table, values, &list[i]);
        ids.push(id);
        proof {
            assert(texts(values@) == distinct(post));
            assert forall|k: int| 0 <= k < i + 1 implies (#[trigger] ids@[k]) < texts(values@).len()
                && texts(values@)[ids@[k] as int] == lv.take(i + 1)[k] by {
                if k < i {
                    assert(ids@[k] == ids0[k]);
                    assert(v0[ids0[k] as int] == lv.take(i as int)[k]);
                }
            }
        }
        i = i + 1;
    }
    proof {
        assert(lv.take(i as int) =~= lv);
    }
    ids
}

proof fn lemma_distinct_grows(s: Seq<Seq<char>>, k: int)
    requires
        0 <= k <= s.len(),
    ensures
        distinct(s.take(k)).len() <= distinct(s).len(),
    decreases s.len() - k,
{
    if k < s.len() {
        assert(s.take(k + 1).drop_last() =~= s.take(k));
        lemma_distinct_grows(s, k + 1);
    } else {
        assert(s.take(k) =~= s);
    }
}

/// Numbers the texts of both lists by one table: equal texts get equal numbers,
/// in the order of their first occurrence. The table comes third.
pub fn intern_sequences(text_prev: &[String], text_curr: &[String]) -> (r: (
    Vec<u32>,
    Vec<u32>,
    Vec<String>,
))
    requires
        distinct(texts(text_prev@) + texts(text_curr@)).len() <= u32::MAX + 1,
    ensures
        texts(r.2@) == distinct(texts(text_prev@) + texts(text_curr@)),
        numbers(r.0@, texts(text_prev@), texts(r.2@)),
        numbers(r.1@, texts(text_curr@), texts(r.2@)),
{
    let mut table: StringHashMap<u32> = StringHashMap::new();
    let mut values: Vec<String> = Vec::new();
    let ghost none = Seq::<Seq<char>>::empty();
    proof {
        assert(texts(values@) =~= none);
        let all = texts(text_prev@) + texts(text_curr@);
        assert(none + texts(text_prev@) =~= texts(text_prev@));
        lemma_distinct_grows(all, text_prev@.len() as int);
        assert(all.take(text_prev@.len() as int) =~= texts(text_prev@));
    }
    let a = intern_all(&mut table, &mut values, text_prev, Ghost(none));
    let ghost v1 = texts(values@);
    let b = intern_all(&mut table, &mut values, text_curr, Ghost(texts(text_prev@)));
    proof {
        assert forall|i: int| 0 <= i < text_prev@.len() implies (#[trigger] a@[i]) < texts(
            values@,
        ).len() && texts(values@)[a@[i] as int] == texts(text_prev@)[i] by {
            assert(v1[a@[i] as int] == texts(text_prev@)[i]);
        }
    }
    (a, b, values)
}

proof fn lemma_distinct_unique(s: Seq<Seq<char>>)
    ensures
        distinct(s).no_duplicates(),
    decreases s.len(),
{
    if s.len() > 0 {
        lemma_distinct_unique(s.drop_last());
    }
}

/// Numbers tell texts apart: two texts are equal just when their numbers are.
pub proof fn numbers_tell_apart(
    s: Seq<Seq<char>>,
    ids: Seq<u32>,
    t: Seq<Seq<char>>,
    jds: Seq<u32>,
    i: int,
    j: int,
)
    requires
        numbers(ids, s, distinct(s + t)),
        numbers(jds, t, distinct(s + t)),
        0 <= i < s.len(),
        0 <= j < t.len(),
    ensures
        ids[i] == jds[j] <==> s[i] == t[j],
{
    lemma_distinct_unique(s + t);
    let v = distinct(s + t);
    assert(v[ids[i] as int] == s[i]);
    assert(v[jds[j] as int] == t[j]);
}

} // verus!
