//! The token transcript between two revisions' texts.
//!
//! The outer comparison pairs equal tokens in contiguous blocks. Where a stretch
//! is replaced, the tokens whose spelling is closest are set against each other
//! and the rest of the stretch is refined on both sides of them.
use crate::matcher::{
    after, before, exceeds, is_path, is_segment, opcodes, opcodes_form_path,
    quick_ratios_bound_ratio, similarity, views, OpTag, Ratio, SequenceMatcher, Window,
};
use crate::text::{chars_of, texts};
use crate::transcript::{
    curr_of, deletes, inserts, keeps, lemma_concat, lemma_single, lemma_stretch, prev_of, Step,
};
use vstd::prelude::*;

verus! {

/// One token of a transcript, with its text.
#[derive(Debug, Clone, PartialEq, Eq)]
pub enum DiffOp {
    /// The token stands in both texts.
    Keep(String),
    /// The token stands in the previous text only.
    Delete(String),
    /// The token stands in the current text only.
    Insert(String),
}

impl View for DiffOp {
    type V = Step<Seq<char>>;

    open spec fn view(&self) -> Step<Seq<char>> {
        match *self {
            DiffOp::Keep(s) => Step::Keep(s@),
            DiffOp::Delete(s) => Step::Delete(s@),
            DiffOp::Insert(s) => Step::Insert(s@),
        }
    }
}

/// How closely two tokens are spelled.
pub open spec fn closeness(x: Seq<char>, y: Seq<char>) -> (int, int) {
    similarity(x, y, true)
}

/// Whether the pair of positions `p` lies in the window.
pub open spec fn pair_in(w: Window, p: (int, int)) -> bool {
    w.alo <= p.0 < w.ahi && w.blo <= p.1 < w.bhi
}

/// Whether the pair `p` comes no later than `q`: by the current token, then by
/// the previous one.
pub open spec fn pair_first(p: (int, int), q: (int, int)) -> bool {
    p.1 < q.1 || (p.1 == q.1 && p.0 <= q.0)
}

/// Whether the tokens at `p` differ, with a closeness of at least three quarters.
pub open spec fn is_close_pair(
    a: Seq<Seq<char>>,
    b: Seq<Seq<char>>,
    w: Window,
    p: (int, int),
) -> bool {
    &&& pair_in(w, p)
    &&& a[p.0] != b[p.1]
    &&& !exceeds((3, 4), closeness(a[p.0], b[p.1]))
}

/// Whether `p` is the closest pair of differing tokens, the first of the closest.
pub open spec fn is_closest_pair(
    a: Seq<Seq<char>>,
    b: Seq<Seq<char>>,
    w: Window,
    p: (int, int),
) -> bool {
    &&& is_close_pair(a, b, w, p)
    &&& forall|q: (int, int)| #[trigger]
        is_close_pair(a, b, w, q) ==> {
            let x = closeness(a[p.0], b[p.1]);
            let y = closeness(a[q.0], b[q.1]);
            exceeds(x, y) || (!exceeds(y, x) && pair_first(p, q))
        }
}

/// Whether the tokens at `p` are equal.
pub open spec fn is_equal_pair(
    a: Seq<Seq<char>>,
    b: Seq<Seq<char>>,
    w: Window,
    p: (int, int),
) -> bool {
    pair_in(w, p) && a[p.0] == b[p.1]
}

/// Whether `p` is the first pair of equal tokens.
pub open spec fn is_first_equal_pair(
    a: Seq<Seq<char>>,
    b: Seq<Seq<char>>,
    w: Window,
    p: (int, int),
) -> bool {
    &&& is_equal_pair(a, b, w, p)
    &&& forall|q: (int, int)| #[trigger] is_equal_pair(a, b, w, q) ==> pair_first(p, q)
}

/// Where a replaced stretch is synchronised: at its closest pair, else at its
/// first pair of equal tokens, else nowhere. The flag tells an equal pair.
pub open spec fn sync_point(a: Seq<Seq<char>>, b: Seq<Seq<char>>, w: Window) -> Option<
    ((int, int), bool),
> {
    if exists|p: (int, int)| is_closest_pair(a, b, w, p) {
        Some((choose|p: (int, int)| is_closest_pair(a, b, w, p), false))
    } else if exists|p: (int, int)| is_first_equal_pair(a, b, w, p) {
        Some((choose|p: (int, int)| is_first_equal_pair(a, b, w, p), true))
    } else {
        None
    }
}

/// A stretch replaced as a whole: the shorter side first, the deletions where
/// both are equally long.
pub open spec fn plain(a: Seq<Seq<char>>, b: Seq<Seq<char>>, w: Window) -> Seq<Step<Seq<char>>> {
    let d = deletes(a, w.alo, w.ahi);
    let i = inserts(b, w.blo, w.bhi);
    if w.bhi - w.blo < w.ahi - w.alo {
        i + d
    } else {
        d + i
    }
}

/// What stands at the synchronised pair.
pub open spec fn sync_steps(
    a: Seq<Seq<char>>,
    b: Seq<Seq<char>>,
    p: (int, int),
    same: bool,
) -> Seq<Step<Seq<char>>> {
    if same {
        seq![Step::Keep(a[p.0])]
    } else {
        seq![Step::Delete(a[p.0]), Step::Insert(b[p.1])]
    }
}

/// The transcript of a stretch that is not paired block by block.
pub open spec fn refined(a: Seq<Seq<char>>, b: Seq<Seq<char>>, w: Window) -> Seq<Step<Seq<char>>>
    decreases w.ahi - w.alo,
{
    if w.alo >= w.ahi || w.blo >= w.bhi {
        if w.alo < w.ahi {
            deletes(a, w.alo, w.ahi)
        } else if w.blo < w.bhi {
            inserts(b, w.blo, w.bhi)
        } else {
            Seq::empty()
        }
    } else {
        match sync_point(a, b, w) {
            None => plain(a, b, w),
            Some((p, same)) => if pair_in(w, p) {
                refined(a, b, before(w, (p.0, p.1, 1))) + sync_steps(a, b, p, same) + refined(
                    a,
                    b,
                    after(w, (p.0, p.1, 1)),
                )
            } else {
                plain(a, b, w)
            },
        }
    }
}

/// The part of the transcript that one segment of the comparison stands for.
pub open spec fn code_steps(
    a: Seq<Seq<char>>,
    b: Seq<Seq<char>>,
    c: (OpTag, int, int, int, int),
) -> Seq<Step<Seq<char>>> {
    match c.0 {
        OpTag::Equal => keeps(a, c.1, c.2),
        OpTag::Delete => deletes(a, c.1, c.2),
        OpTag::Insert => inserts(b, c.3, c.4),
        OpTag::Replace => refined(a, b, Window { alo: c.1, ahi: c.2, blo: c.3, bhi: c.4 }),
    }
}

/// The transcript of a list of segments.
pub open spec fn codes_steps(
    a: Seq<Seq<char>>,
    b: Seq<Seq<char>>,
    codes: Seq<(OpTag, int, int, int, int)>,
) -> Seq<Step<Seq<char>>>
    decreases codes.len(),
{
    if codes.len() == 0 {
        Seq::empty()
    } else {
        code_steps(a, b, codes[0]) + codes_steps(a, b, codes.drop_first())
    }
}

/// The transcript between two token sequences.
pub open spec fn transcript(a: Seq<Seq<char>>, b: Seq<Seq<char>>) -> Seq<Step<Seq<char>>> {
    codes_steps(a, b, opcodes(a, b, true))
}

proof fn lemma_fractions(x: (int, int), y: (int, int), z: (int, int))
    by (nonlinear_arith)
    requires
        x.1 > 0,
        y.1 > 0,
        z.1 > 0,
    ensures
        !exceeds(x, y) && !exceeds(y, z) ==> !exceeds(x, z),
        !exceeds(x, y) && exceeds(z, y) ==> exceeds(z, x),
        exceeds(y, x) && !exceeds(y, z) ==> exceeds(z, x),
{
    if x.0 * y.1 <= y.0 * x.1 && y.0 * z.1 <= z.0 * y.1 {
        assert(x.0 * y.1 * z.1 <= y.0 * x.1 * z.1);
        assert(y.0 * z.1 * x.1 <= z.0 * y.1 * x.1);
        assert(x.0 * z.1 * y.1 <= z.0 * x.1 * y.1);
        assert(x.0 * z.1 <= z.0 * x.1);
    }
    if x.0 * y.1 <= y.0 * x.1 && z.0 * y.1 > y.0 * z.1 {
        assert(x.0 * y.1 * z.1 <= y.0 * x.1 * z.1);
        assert(z.0 * y.1 * x.1 > y.0 * z.1 * x.1);
        assert(z.0 * x.1 * y.1 > x.0 * z.1 * y.1);
        assert(z.0 * x.1 > x.0 * z.1);
    }
    if y.0 * x.1 > x.0 * y.1 && y.0 * z.1 <= z.0 * y.1 {
        assert(y.0 * x.1 * z.1 > x.0 * y.1 * z.1);
        assert(y.0 * z.1 * x.1 <= z.0 * y.1 * x.1);
        assert(z.0 * x.1 * y.1 > x.0 * z.1 * y.1);
        assert(z.0 * x.1 > x.0 * z.1);
    }
}

/// Whether the pair `q` was looked at before the pair `(i, j)`.
spec fn seen(w: Window, i: int, j: int, q: (int, int)) -> bool {
    pair_in(w, q) && (q.1 < j || (q.1 == j && q.0 < i))
}

/// The best pair of differing tokens among those seen.
spec fn best_seen(
    a: Seq<Seq<char>>,
    b: Seq<Seq<char>>,
    w: Window,
    i: int,
    j: int,
    found: bool,
    p: (int, int),
    best: (int, int),
) -> bool {
    &&& best.1 > 0
    &&& !found ==> best == (37int, 50int)
    &&& found ==> seen(w, i, j, p) && a[p.0] != b[p.1] && best == closeness(a[p.0], b[p.1])
    &&& forall|q: (int, int)| #![trigger closeness(a[q.0], b[q.1])]
        seen(w, i, j, q) && a[q.0] != b[q.1] ==> {
            let y = closeness(a[q.0], b[q.1]);
            !exceeds(y, best) && (found ==> exceeds(best, y) || pair_first(p, q))
        }
}

/// The first pair of equal tokens among those seen.
spec fn equal_seen(
    a: Seq<Seq<char>>,
    b: Seq<Seq<char>>,
    w: Window,
    i: int,
    j: int,
    found: bool,
    p: (int, int),
) -> bool {
    &&& found ==> seen(w, i, j, p) && a[p.0] == b[p.1]
    &&& forall|q: (int, int)|
        seen(w, i, j, q) && #[trigger] is_equal_pair(a, b, w, q) ==> found && pair_first(p, q)
}

proof fn lemma_closest_unique(a: Seq<Seq<char>>, b: Seq<Seq<char>>, w: Window, p: (int, int))
    requires
        is_closest_pair(a, b, w, p),
    ensures
        sync_point(a, b, w) == Some((p, false)),
{
    let o = choose|p: (int, int)| is_closest_pair(a, b, w, p);
    assert(is_closest_pair(a, b, w, o));
    assert(is_close_pair(a, b, w, o));
    assert(is_close_pair(a, b, w, p));
}

proof fn lemma_first_equal_unique(a: Seq<Seq<char>>, b: Seq<Seq<char>>, w: Window, p: (int, int))
    requires
        is_first_equal_pair(a, b, w, p),
        forall|q: (int, int)| !#[trigger] is_close_pair(a, b, w, q),
    ensures
        sync_point(a, b, w) == Some((p, true)),
{
    assert forall|q: (int, int)| !#[trigger] is_closest_pair(a, b, w, q) by {
        assert(!is_close_pair(a, b, w, q));
    }
    let o = choose|p: (int, int)| is_first_equal_pair(a, b, w, p);
    assert(is_first_equal_pair(a, b, w, o));
    assert(is_equal_pair(a, b, w, o));
    assert(is_equal_pair(a, b, w, p));
}

proof fn lemma_best_settles(
    a: Seq<Seq<char>>,
    b: Seq<Seq<char>>,
    w: Window,
    found: bool,
    p: (int, int),
    best: (int, int),
)
    requires
        best_seen(a, b, w, w.alo, w.bhi, found, p, best),
    ensures
        !exceeds((3, 4), best) ==> is_closest_pair(a, b, w, p),
        exceeds((3, 4), best) ==> forall|q: (int, int)| !#[trigger] is_close_pair(a, b, w, q),
{
    if exceeds((3, 4), best) {
        assert forall|q: (int, int)| !#[trigger] is_close_pair(a, b, w, q) by {
            if is_close_pair(a, b, w, q) {
                let y = closeness(a[q.0], b[q.1]);
                assert(seen(w, w.alo, w.bhi, q));
                lemma_fractions((3, 4), y, best);
            }
        }
    } else {
        assert(found);
        assert(is_close_pair(a, b, w, p));
        assert forall|q: (int, int)| #[trigger] is_close_pair(a, b, w, q) implies {
            let x = closeness(a[p.0], b[p.1]);
            let y = closeness(a[q.0], b[q.1]);
            exceeds(x, y) || (!exceeds(y, x) && pair_first(p, q))
        } by {
            assert(seen(w, w.alo, w.bhi, q));
            let y = closeness(a[q.0], b[q.1]);
            assert(!exceeds(y, best));
        }
    }
}

/// Pairs up the tokens of a replaced stretch by their spelling.
struct Differ {
    char_cruncher: SequenceMatcher<char>,
}

/// Where to synchronise a stretch, as [`sync_point`] has it.
struct Sync {
    i: usize,
    j: usize,
    same: bool,
}

impl Differ {
    spec fn wf(&self) -> bool {
        self.char_cruncher.wf() && self.char_cruncher.junks()
    }

    fn new() -> (r: Differ)
        ensures
            r.wf(),
    {
        Differ { char_cruncher: SequenceMatcher::new(true) }
    }

    /// The closeness of two tokens if it exceeds `best`. The two quick ratios,
    /// which bound it from above, are tried first.
    fn closer(&mut self, x: &Vec<char>, y: &Vec<char>, best: &Ratio) -> (r: Option<Ratio>)
        requires
            old(self).wf(),
            best.den > 0,
        ensures
            final(self).wf(),
            match r {
                Some(c) => c.den > 0 && c@ == closeness(x@, y@) && exceeds(
                    closeness(x@, y@),
                    best@,
                ),
                None => !exceeds(closeness(x@, y@), best@),
            },
    {
        self.char_cruncher.set_seqs(x.clone(), y.clone());
        proof {
            assert(views(x@) =~= x@);
            assert(views(y@) =~= y@);
            quick_ratios_bound_ratio(x@, y@, true);
        }
        let rq = self.char_cruncher.real_quick_ratio();
        let q = self.char_cruncher.quick_ratio();
        proof {
            let c = closeness(x@, y@);
            lemma_fractions(c, q@, best@);
            lemma_fractions(q@, rq@, best@);
        }
        if !rq.exceeds(best) {
            return None;
        }
        if !q.exceeds(best) {
            return None;
        }
        let c = self.char_cruncher.ratio();
        if c.exceeds(best) {
            Some(c)
        } else {
            None
        }
    }

    /// Finds where to synchronise the stretch.
    fn find_sync(
        &mut self,
        a: &[String],
        alo: usize,
        ahi: usize,
        b: &[String],
        blo: usize,
        bhi: usize,
    ) -> (r: Option<Sync>)
        requires
            old(self).wf(),
            alo <= ahi <= a@.len(),
            blo <= bhi <= b@.len(),
        ensures
            final(self).wf(),
            ({
                let w = Window { alo: alo as int, ahi: ahi as int, blo: blo as int, bhi: bhi as int };
                match r {
                    Some(s) => sync_point(texts(a@), texts(b@), w) == Some(
                        ((s.i as int, s.j as int), s.same),
                    ) && pair_in(w, (s.i as int, s.j as int)),
                    None => sync_point(texts(a@), texts(b@), w) is None,
                }
            }),
    {
        let ghost av = texts(a@);
        let ghost bv = texts(b@);
        let ghost w = Window { alo: alo as int, ahi: ahi as int, blo: blo as int, bhi: bhi as int };
        let mut best = Ratio { num: 37, den: 50 };
        let mut found: bool = false;
        let mut best_i: usize = 0;
        let mut best_j: usize = 0;
        let mut has_equal: bool = false;
        let mut eqi: usize = 0;
        let mut eqj: usize = 0;
        let mut j: usize = blo;
        while j < bhi
            invariant
                self.wf(),
                blo <= j <= bhi,
                alo <= ahi <= a@.len(),
                bhi <= b@.len(),
                av == texts(a@),
                bv == texts(b@),
                w == (Window { alo: alo as int, ahi: ahi as int, blo: blo as int, bhi: bhi as int }),
                best_seen(
                    av,
                    bv,
                    w,
                    alo as int,
                    j as int,
                    found,
                    (best_i as int, best_j as int),
                    best@,
                ),
                equal_seen(
                    av,
                    bv,
                    w,
                    alo as int,
                    j as int,
                    has_equal,
                    (eqi as int, eqj as int),
                ),
            decreases bhi - j,
        {
            let bc = chars_of(b[j].as_str());
            let mut i: usize = alo;
            while i < ahi
                invariant
                    self.wf(),
                    alo <= i <= ahi,
                    blo <= j < bhi,
                    ahi <= a@.len(),
                    bhi <= b@.len(),
                    av == texts(a@),
                    bv == texts(b@),
                    bc@ == bv[j as int],
                    w == (Window {
                        alo: alo as int,
                        ahi: ahi as int,
                        blo: blo as int,
                        bhi: bhi as int,
                    }),
                    best_seen(
                        av,
                        bv,
                        w,
                        i as int,
                        j as int,
                        found,
                        (best_i as int, best_j as int),
                        best@,
                    ),
                    equal_seen(
                        av,
                        bv,
                        w,
                        i as int,
                        j as int,
                        has_equal,
                        (eqi as int, eqj as int),
                    ),
                decreases ahi - i,
            {
                let ghost here = (i as int, j as int);
                let ghost best0 = best@;
                if a[i] == b[j] {
                    if !has_equal {
                        has_equal = true;
                        eqi = i;
                        eqj = j;
                    }
                } else {
                    let ac = chars_of(a[i].as_str());
                    let c = self.closer(&ac, &bc, &best);
                    proof {
                        assert(ac@ == av[i as int]);
                    }
                    match c {
                        Some(r) => {
                            best = r;
                            found = true;
                            best_i = i;
                            best_j = j;
                        },
                        None => {},
                    }
                }
                proof {
                    let p = (best_i as int, best_j as int);
                    assert forall|q: (int, int)| #![trigger closeness(av[q.0], bv[q.1])]
                        seen(w, i + 1, j as int, q) && av[q.0] != bv[q.1] implies {
                        let y = closeness(av[q.0], bv[q.1]);
                        !exceeds(y, best@) && (found ==> exceeds(best@, y) || pair_first(p, q))
                    } by {
                        let y = closeness(av[q.0], bv[q.1]);
                        if q != here {
                            assert(seen(w, i as int, j as int, q));
                            lemma_fractions(y, best0, best@);
                        }
                    }
                    assert forall|q: (int, int)|
                        seen(w, i + 1, j as int, q) && #[trigger] is_equal_pair(
                            av,
                            bv,
                            w,
                            q,
                        ) implies has_equal && pair_first((eqi as int, eqj as int), q) by {
                        if q != here {
                            assert(seen(w, i as int, j as int, q));
                        }
                    }
                }
                i = i + 1;
            }
            proof {
                assert forall|q: (int, int)| seen(w, ahi as int, j as int, q) == #[trigger] seen(
                    w,
                    alo as int,
                    j + 1,
                    q,
                ) by {}
                assert(best_seen(
                    av,
                    bv,
                    w,
                    alo as int,
                    j + 1,
                    found,
                    (best_i as int, best_j as int),
                    best@,
                ));
            }
            j = j + 1;
        }
        let cutoff = Ratio { num: 3, den: 4 };
        proof {
            lemma_best_settles(av, bv, w, found, (best_i as int, best_j as int), best@);
        }
        if cutoff.exceeds(&best) {
            if has_equal {
                proof {
                    let p = (eqi as int, eqj as int);
                    assert forall|q: (int, int)| #[trigger]
                        is_equal_pair(av, bv, w, q) implies pair_first(p, q) by {
                        assert(seen(w, alo as int, bhi as int, q));
                    }
                    assert(is_first_equal_pair(av, bv, w, p));
                    lemma_first_equal_unique(av, bv, w, p);
                }
                Some(Sync { i: eqi, j: eqj, same: true })
            } else {
                proof {
                    assert forall|q: (int, int)| !#[trigger] is_closest_pair(av, bv, w, q) by {
                        assert(!is_close_pair(av, bv, w, q));
                    }
                    assert forall|q: (int, int)| !#[trigger] is_first_equal_pair(av, bv, w, q) by {
                        if is_equal_pair(av, bv, w, q) {
                            assert(seen(w, alo as int, bhi as int, q));
                        }
                    }
                }
                None
            }
        } else {
            proof {
                lemma_closest_unique(av, bv, w, (best_i as int, best_j as int));
            }
            Some(Sync { i: best_i, j: best_j, same: false })
        }
    }
}

/// The view of a list of operations.
pub open spec fn steps(v: Seq<DiffOp>) -> Seq<Step<Seq<char>>> {
    v.map_values(|d: DiffOp| d@)
}

/// Which of the three operations a stretch is written with.
#[derive(Clone, Copy)]
enum Kind {
    Keep,
    Delete,
    Insert,
}

spec fn stretch(k: Kind, s: Seq<Seq<char>>, lo: int, hi: int) -> Seq<Step<Seq<char>>> {
    match k {
        Kind::Keep => keeps(s, lo, hi),
        Kind::Delete => deletes(s, lo, hi),
        Kind::Insert => inserts(s, lo, hi),
    }
}

/// Appends the operations for `s[lo..hi]`.
fn emit(k: Kind, s: &[String], lo: usize, hi: usize, out: &mut Vec<DiffOp>)
    requires
        lo <= hi <= s@.len(),
    ensures
        steps(final(out)@) == steps(old(out)@) + stretch(k, texts(s@), lo as int, hi as int),
{
    let ghost sv = texts(s@);
    let mut i: usize = lo;
    proof {
        assert(stretch(k, sv, lo as int, lo as int) =~= Seq::empty());
        assert(steps(out@) + Seq::<Step<Seq<char>>>::empty() =~= steps(out@));
    }
    while i < hi
        invariant
            lo <= i <= hi <= s@.len(),
            sv == texts(s@),
            steps(out@) == steps(old(out)@) + stretch(k, sv, lo as int, i as int),
        decreases hi - i,
    {
        let ghost out0 = out@;
        let v = s[i].clone();
        let op = match k {
            Kind::Keep => DiffOp::Keep(v),
            Kind::Delete => DiffOp::Delete(v),
            Kind::Insert => DiffOp::Insert(v),
        };
        out.push(op);
        proof {
            assert(steps(out@) =~= steps(out0).push(op@));
            assert(sv.subrange(lo as int, i + 1) =~= sv.subrange(lo as int, i as int).push(
                sv[i as int],
            ));
            assert(stretch(k, sv, lo as int, i + 1) =~= stretch(k, sv, lo as int, i as int).push(
                op@,
            ));
            assert(steps(out@) =~= steps(old(out)@) + stretch(k, sv, lo as int, i + 1));
        }
        i = i + 1;
    }
}

impl Differ {
    /// Refines a replaced stretch that is non-empty on both sides.
    fn fancy_replace(
        &mut self,
        a: &[String],
        alo: usize,
        ahi: usize,
        b: &[String],
        blo: usize,
        bhi: usize,
        out: &mut Vec<DiffOp>,
    )
        requires
            old(self).wf(),
            alo < ahi <= a@.len(),
            blo < bhi <= b@.len(),
        ensures
            final(self).wf(),
            steps(final(out)@) == steps(old(out)@) + refined(
                texts(a@),
                texts(b@),
                (Window { alo: alo as int, ahi: ahi as int, blo: blo as int, bhi: bhi as int }),
            ),
        decreases ahi - alo, 0int,
    {
        let ghost av = texts(a@);
        let ghost bv = texts(b@);
        let ghost w = Window { alo: alo as int, ahi: ahi as int, blo: blo as int, bhi: bhi as int };
        let sync = self.find_sync(a, alo, ahi, b, blo, bhi);
        match sync {
            None => {
                self.plain_replace(a, alo, ahi, b, blo, bhi, out);
            },
            Some(s) => {
                let ghost out0 = out@;
                let ghost p = (s.i as int, s.j as int);
                let ghost left = refined(av, bv, before(w, (p.0, p.1, 1)));
                let ghost right = refined(av, bv, after(w, (p.0, p.1, 1)));
                self.fancy_helper(a, alo, s.i, b, blo, s.j, out);
                let ghost out1 = out@;
                if s.same {
                    out.push(DiffOp::Keep(a[s.i].clone()));
                } else {
                    out.push(DiffOp::Delete(a[s.i].clone()));
                    out.push(DiffOp::Insert(b[s.j].clone()));
                }
                proof {
                    assert(steps(out@) =~= steps(out1) + sync_steps(av, bv, p, s.same));
                }
                let ghost out2 = out@;
                self.fancy_helper(a, s.i + 1, ahi, b, s.j + 1, bhi, out);
                proof {
                    assert(steps(out1) == steps(out0) + left);
                    assert(steps(out@) == steps(out2) + right);
                    assert(steps(out@) =~= steps(out0) + (left + sync_steps(av, bv, p, s.same)
                        + right));
                }
            },
        }
    }

    /// Refines a stretch, either side of which may be empty.
    fn fancy_helper(
        &mut self,
        a: &[String],
        alo: usize,
        ahi: usize,
        b: &[String],
        blo: usize,
        bhi: usize,
        out: &mut Vec<DiffOp>,
    )
        requires
            old(self).wf(),
            alo <= ahi <= a@.len(),
            blo <= bhi <= b@.len(),
        ensures
            final(self).wf(),
            steps(final(out)@) == steps(old(out)@) + refined(
                texts(a@),
                texts(b@),
                (Window { alo: alo as int, ahi: ahi as int, blo: blo as int, bhi: bhi as int }),
            ),
        decreases ahi - alo, 1int,
    {
        if alo < ahi {
            if blo < bhi {
                self.fancy_replace(a, alo, ahi, b, blo, bhi, out);
            } else {
                emit(Kind::Delete, a, alo, ahi, out);
            }
        } else if blo < bhi {
            emit(Kind::Insert, b, blo, bhi, out);
        } else {
            proof {
                assert(steps(out@) + Seq::<Step<Seq<char>>>::empty() =~= steps(out@));
            }
        }
    }

    /// Replaces a stretch as a whole, the shorter side first.
    fn plain_replace(
        &self,
        a: &[String],
        alo: usize,
        ahi: usize,
        b: &[String],
        blo: usize,
        bhi: usize,
        out: &mut Vec<DiffOp>,
    )
        requires
            alo <= ahi <= a@.len(),
            blo <= bhi <= b@.len(),
        ensures
            steps(final(out)@) == steps(old(out)@) + plain(
                texts(a@),
                texts(b@),
                (Window { alo: alo as int, ahi: ahi as int, blo: blo as int, bhi: bhi as int }),
            ),
    {
        let ghost out0 = steps(out@);
        let ghost d = deletes(texts(a@), alo as int, ahi as int);
        let ghost i = inserts(texts(b@), blo as int, bhi as int);
        if bhi - blo < ahi - alo {
            emit(Kind::Insert, b, blo, bhi, out);
            emit(Kind::Delete, a, alo, ahi, out);
            proof {
                assert(steps(out@) =~= out0 + (i + d));
            }
        } else {
            emit(Kind::Delete, a, alo, ahi, out);
            emit(Kind::Insert, b, blo, bhi, out);
            proof {
                assert(steps(out@) =~= out0 + (d + i));
            }
        }
    }
}

proof fn lemma_code_ok(
    a: Seq<Seq<char>>,
    b: Seq<Seq<char>>,
    codes: Seq<(OpTag, int, int, int, int)>,
    i: int,
    j: int,
    k: int,
)
    requires
        is_path(a, b, codes, i, j),
        0 <= k < codes.len(),
    ensures
        is_segment(a, b, codes[k]),
    decreases k,
{
    if k > 0 {
        lemma_code_ok(a, b, codes.drop_first(), codes[0].2, codes[0].4, k - 1);
        assert(codes.drop_first()[k - 1] == codes[k]);
    }
}

/// The transcript from the previous token sequence to the current one.
pub fn differ_compare(text_prev: &[String], text_curr: &[String]) -> (out: Vec<DiffOp>)
    ensures
        steps(out@) == transcript(texts(text_prev@), texts(text_curr@)),
{
    let ghost av = texts(text_prev@);
    let ghost bv = texts(text_curr@);
    let mut sm: SequenceMatcher<String> = SequenceMatcher::new(true);
    sm.set_seqs(copy_texts(text_prev), copy_texts(text_curr));
    let codes = sm.get_opcodes();
    let ghost cv = views(codes@);
    proof {
        opcodes_form_path(av, bv, true);
    }
    let mut differ = Differ::new();
    let mut out: Vec<DiffOp> = Vec::new();
    let mut k: usize = 0;
    proof {
        assert(cv.skip(0) =~= cv);
        assert(steps(out@) + transcript(av, bv) =~= transcript(av, bv));
    }
    while k < codes.len()
        invariant
            k <= codes@.len(),
            differ.wf(),
            av == texts(text_prev@),
            bv == texts(text_curr@),
            cv == views(codes@),
            cv == opcodes(av, bv, true),
            is_path(av, bv, cv, 0, 0),
            steps(out@) + codes_steps(av, bv, cv.skip(k as int)) == transcript(av, bv),
        decreases codes@.len() - k,
    {
        let c = codes[k];
        let ghost out0 = steps(out@);
        proof {
            lemma_code_ok(av, bv, cv, 0, 0, k as int);
            assert(cv[k as int] == c@);
            assert(cv.skip(k as int)[0] == c@);
            assert(cv.skip(k as int).drop_first() =~= cv.skip(k + 1));
        }
        match c.tag {
            OpTag::Equal => {
                emit(Kind::Keep, text_prev, c.i1, c.i2, &mut out);
            },
            OpTag::Delete => {
                emit(Kind::Delete, text_prev, c.i1, c.i2, &mut out);
            },
            OpTag::Insert => {
                emit(Kind::Insert, text_curr, c.j1, c.j2, &mut out);
            },
            OpTag::Replace => {
                differ.fancy_replace(text_prev, c.i1, c.i2, text_curr, c.j1, c.j2, &mut out);
            },
        }
        proof {
            assert(steps(out@) == out0 + code_steps(av, bv, c@));
            assert(steps(out@) + codes_steps(av, bv, cv.skip(k + 1)) =~= out0 + (code_steps(
                av,
                bv,
                c@,
            ) + codes_steps(av, bv, cv.skip(k + 1))));
        }
        k = k + 1;
    }
    proof {
        assert(cv.skip(k as int).len() == 0);
        assert(steps(out@) + Seq::<Step<Seq<char>>>::empty() =~= steps(out@));
    }
    out
}

/// A copy of a list of strings.
fn copy_texts(v: &[String]) -> (r: Vec<String>)
    ensures
        views(r@) == texts(v@),
{
    let mut r: Vec<String> = Vec::new();
    let mut i: usize = 0;
    while i < v.len()
        invariant
            i <= v@.len(),
            views(r@) == texts(v@).take(i as int),
        decreases v@.len() - i,
    {
        let ghost r0 = r@;
        r.push(v[i].clone());
        proof {
            assert(views(r@) =~= views(r0).push(v@[i as int]@));
            assert(texts(v@).take(i + 1) =~= texts(v@).take(i as int).push(v@[i as int]@));
        }
        i = i + 1;
    }
    proof {
        assert(texts(v@).take(i as int) =~= texts(v@));
    }
    r
}

proof fn lemma_around_sync(
    a: Seq<Seq<char>>,
    b: Seq<Seq<char>>,
    w: Window,
    p: (int, int),
    same: bool,
    l: Seq<Step<Seq<char>>>,
    r: Seq<Step<Seq<char>>>,
)
    requires
        0 <= w.alo <= w.ahi <= a.len(),
        0 <= w.blo <= w.bhi <= b.len(),
        pair_in(w, p),
        same ==> a[p.0] == b[p.1],
        prev_of(l) == a.subrange(w.alo, p.0),
        curr_of(l) == b.subrange(w.blo, p.1),
        prev_of(r) == a.subrange(p.0 + 1, w.ahi),
        curr_of(r) == b.subrange(p.1 + 1, w.bhi),
    ensures
        prev_of(l + sync_steps(a, b, p, same) + r) == a.subrange(w.alo, w.ahi),
        curr_of(l + sync_steps(a, b, p, same) + r) == b.subrange(w.blo, w.bhi),
{
    let m = sync_steps(a, b, p, same);
    if same {
        lemma_single(Step::Keep(a[p.0]));
    } else {
        lemma_single(Step::Delete(a[p.0]));
        lemma_single(Step::Insert(b[p.1]));
        let x: Seq<Step<Seq<char>>> = seq![Step::Delete(a[p.0])];
        let y: Seq<Step<Seq<char>>> = seq![Step::Insert(b[p.1])];
        assert(m =~= x + y);
        lemma_concat(x, y);
    }
    assert(prev_of(m) =~= seq![a[p.0]]);
    assert(curr_of(m) =~= seq![b[p.1]]);
    lemma_concat(l, m);
    lemma_concat(l + m, r);
    assert(a.subrange(w.alo, w.ahi) =~= a.subrange(w.alo, p.0) + seq![a[p.0]] + a.subrange(
        p.0 + 1,
        w.ahi,
    ));
    assert(b.subrange(w.blo, w.bhi) =~= b.subrange(w.blo, p.1) + seq![b[p.1]] + b.subrange(
        p.1 + 1,
        w.bhi,
    ));
}

/// Refining a stretch loses nothing: its transcript leads from the previous
/// tokens of the window to the current ones.
pub proof fn refined_reconstructs(a: Seq<Seq<char>>, b: Seq<Seq<char>>, w: Window)
    requires
        0 <= w.alo <= w.ahi <= a.len(),
        0 <= w.blo <= w.bhi <= b.len(),
    ensures
        prev_of(refined(a, b, w)) == a.subrange(w.alo, w.ahi),
        curr_of(refined(a, b, w)) == b.subrange(w.blo, w.bhi),
    decreases w.ahi - w.alo,
{
    let d = deletes(a, w.alo, w.ahi);
    let i = inserts(b, w.blo, w.bhi);
    lemma_stretch(a, w.alo, w.ahi);
    lemma_stretch(b, w.blo, w.bhi);
    lemma_concat(d, i);
    lemma_concat(i, d);
    let none = Seq::<Seq<char>>::empty();
    assert(none + a.subrange(w.alo, w.ahi) =~= a.subrange(w.alo, w.ahi));
    assert(a.subrange(w.alo, w.ahi) + none =~= a.subrange(w.alo, w.ahi));
    assert(none + b.subrange(w.blo, w.bhi) =~= b.subrange(w.blo, w.bhi));
    assert(b.subrange(w.blo, w.bhi) + none =~= b.subrange(w.blo, w.bhi));
    if w.alo >= w.ahi || w.blo >= w.bhi {
        assert(w.alo == w.ahi ==> a.subrange(w.alo, w.ahi) =~= none);
        assert(w.blo == w.bhi ==> b.subrange(w.blo, w.bhi) =~= none);
    } else {
        match sync_point(a, b, w) {
            None => {},
            Some((p, same)) => {
                if pair_in(w, p) {
                    let wl = before(w, (p.0, p.1, 1));
                    let wr = after(w, (p.0, p.1, 1));
                    refined_reconstructs(a, b, wl);
                    refined_reconstructs(a, b, wr);
                    if same {
                        if exists|p: (int, int)| is_closest_pair(a, b, w, p) {
                        } else {
                            assert(is_first_equal_pair(a, b, w, p));
                            assert(is_equal_pair(a, b, w, p));
                        }
                    }
                    lemma_around_sync(a, b, w, p, same, refined(a, b, wl), refined(a, b, wr));
                }
            },
        }
    }
}

proof fn lemma_codes_reconstruct(
    a: Seq<Seq<char>>,
    b: Seq<Seq<char>>,
    codes: Seq<(OpTag, int, int, int, int)>,
    i: int,
    j: int,
)
    requires
        is_path(a, b, codes, i, j),
        0 <= i <= a.len(),
        0 <= j <= b.len(),
    ensures
        prev_of(codes_steps(a, b, codes)) == a.subrange(i, a.len() as int),
        curr_of(codes_steps(a, b, codes)) == b.subrange(j, b.len() as int),
    decreases codes.len(),
{
    if codes.len() == 0 {
        assert(a.subrange(i, a.len() as int) =~= Seq::empty());
        assert(b.subrange(j, b.len() as int) =~= Seq::empty());
    } else {
        let c = codes[0];
        let rest = codes_steps(a, b, codes.drop_first());
        lemma_codes_reconstruct(a, b, codes.drop_first(), c.2, c.4);
        lemma_concat(code_steps(a, b, c), rest);
        lemma_stretch(a, c.1, c.2);
        lemma_stretch(b, c.3, c.4);
        if c.0 == OpTag::Replace {
            refined_reconstructs(a, b, Window { alo: c.1, ahi: c.2, blo: c.3, bhi: c.4 });
        }
        assert(a.subrange(i, a.len() as int) =~= a.subrange(c.1, c.2) + a.subrange(
            c.2,
            a.len() as int,
        ));
        assert(b.subrange(j, b.len() as int) =~= b.subrange(c.3, c.4) + b.subrange(
            c.4,
            b.len() as int,
        ));
        assert(c.1 == c.2 ==> a.subrange(c.1, c.2) =~= Seq::empty());
        assert(c.3 == c.4 ==> b.subrange(c.3, c.4) =~= Seq::empty());
    }
}

/// A transcript reconstructs both sequences: what it keeps and deletes is the
/// previous one, what it keeps and inserts the current one.
pub proof fn transcript_reconstructs(a: Seq<Seq<char>>, b: Seq<Seq<char>>)
    ensures
        prev_of(transcript(a, b)) == a,
        curr_of(transcript(a, b)) == b,
{
    opcodes_form_path(a, b, true);
    lemma_codes_reconstruct(a, b, opcodes(a, b, true), 0, 0);
    assert(a.subrange(0, a.len() as int) =~= a);
    assert(b.subrange(0, b.len() as int) =~= b);
}

} // verus!
