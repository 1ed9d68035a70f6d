//! Character-level text operations: splitting, replacing, trimming and
//! joining, all specified over sequences of characters.
pub use vstd::hash_map::StringHashMap;
pub use vstd::hash_set::StringHashSet;
use vstd::prelude::*;

verus! {

/// The texts that a list of strings holds.
pub open spec fn texts(v: Seq<String>) -> Seq<Seq<char>> {
    v.map_values(|s: String| s@)
}

/// Whether `p` occurs in `s` at position `i`.
pub open spec fn occurs_at(s: Seq<char>, p: Seq<char>, i: int) -> bool {
    &&& 0 <= i
    &&& i + p.len() <= s.len()
    &&& s.subrange(i, i + p.len()) == p
}

/// `s` from position `i` on, with every non-overlapping occurrence of the
/// non-empty pattern `p`, found from left to right, replaced by `r`.
pub open spec fn replaced_from(s: Seq<char>, p: Seq<char>, r: Seq<char>, i: int) -> Seq<char>
    decreases s.len() - i,
{
    if i < 0 || i >= s.len() || p.len() == 0 {
        Seq::empty()
    } else if occurs_at(s, p, i) {
        r + replaced_from(s, p, r, i + p.len())
    } else {
        seq![s[i]] + replaced_from(s, p, r, i + 1)
    }
}

/// `s` with every occurrence of `p` replaced by `r`, left to right.
pub open spec fn replaced(s: Seq<char>, p: Seq<char>, r: Seq<char>) -> Seq<char> {
    replaced_from(s, p, r, 0)
}

/// The pieces of `s` that lie between occurrences of the non-empty delimiter
/// `d`: the piece that begins at `start` and is scanned up to `i`, and those
/// after it.
pub open spec fn split_from(s: Seq<char>, d: Seq<char>, start: int, i: int) -> Seq<Seq<char>>
    decreases s.len() - i,
{
    if i < 0 || i >= s.len() || d.len() == 0 {
        seq![s.subrange(start, s.len() as int)]
    } else if occurs_at(s, d, i) {
        seq![s.subrange(start, i)] + split_from(s, d, i + d.len(), i + d.len())
    } else {
        split_from(s, d, start, i + 1)
    }
}

/// The pieces of `s` between occurrences of the delimiter `d`.
pub open spec fn split_on(s: Seq<char>, d: Seq<char>) -> Seq<Seq<char>> {
    split_from(s, d, 0, 0)
}

/// Whether `p` occurs anywhere in `s`.
pub open spec fn occurs_in(s: Seq<char>, p: Seq<char>) -> bool {
    exists|i: int| #[trigger] occurs_at(s, p, i)
}

/// The texts of `parts`, one after the other, with `sep` between neighbours.
pub open spec fn joined(parts: Seq<Seq<char>>, sep: Seq<char>) -> Seq<char>
    decreases parts.len(),
{
    if parts.len() == 0 {
        Seq::empty()
    } else if parts.len() == 1 {
        parts[0]
    } else {
        joined(parts.drop_last(), sep) + sep + parts.last()
    }
}

/// The first position at or after `i` whose character is not whitespace.
pub open spec fn first_solid(s: Seq<char>, i: int) -> int
    decreases s.len() - i,
{
    if i < 0 || i >= s.len() {
        i
    } else if is_white_space(s[i]) {
        first_solid(s, i + 1)
    } else {
        i
    }
}

/// The end of `s` before `i` once whitespace that ends there is dropped, no
/// further back than `lo`.
pub open spec fn last_solid(s: Seq<char>, lo: int, i: int) -> int
    decreases i,
{
    if i <= lo || i <= 0 || i > s.len() {
        i
    } else if is_white_space(s[i - 1]) {
        last_solid(s, lo, i - 1)
    } else {
        i
    }
}

/// `s` without the whitespace at its two ends.
pub open spec fn trimmed(s: Seq<char>) -> Seq<char> {
    let lo = first_solid(s, 0);
    s.subrange(lo, last_solid(s, lo, s.len() as int))
}

/// Whether a character has the Unicode property `White_Space`.
pub open spec fn is_white_space(c: char) -> bool {
    let n = c as int;
    ||| 0x9 <= n <= 0xD
    ||| n == 0x20
    ||| n == 0x85
    ||| n == 0xA0
    ||| n == 0x1680
    ||| 0x2000 <= n <= 0x200A
    ||| n == 0x2028
    ||| n == 0x2029
    ||| n == 0x202F
    ||| n == 0x205F
    ||| n == 0x3000
}

/// `char::is_whitespace` tells whether a character has the Unicode property
/// `White_Space`.
pub assume_specification[ char::is_whitespace ](c: char) -> (r: bool)
    ensures
        r == is_white_space(c),
;

/// `String::push` appends one character.
pub assume_specification[ String::push ](s: &mut String, c: char)
    ensures
        final(s)@ == old(s)@.push(c),
;

proof fn lemma_first_solid(s: Seq<char>, i: int)
    requires
        0 <= i <= s.len(),
    ensures
        i <= first_solid(s, i) <= s.len(),
        first_solid(s, i) < s.len() ==> !is_white_space(s[first_solid(s, i)]),
    decreases s.len() - i,
{
    if i < s.len() && is_white_space(s[i]) {
        lemma_first_solid(s, i + 1);
    }
}

proof fn lemma_last_solid(s: Seq<char>, lo: int, i: int)
    requires
        0 <= lo <= i <= s.len(),
    ensures
        lo <= last_solid(s, lo, i) <= i,
        lo < i && !is_white_space(s[lo]) ==> lo < last_solid(s, lo, i),
    decreases i,
{
    if i > lo && is_white_space(s[i - 1]) {
        lemma_last_solid(s, lo, i - 1);
    }
}

/// What trimming leaves does not begin with whitespace, and trimming it again
/// leaves something.
pub proof fn trimmed_begins_solid(s: Seq<char>)
    requires
        trimmed(s).len() > 0,
    ensures
        !is_white_space(trimmed(s)[0]),
        trimmed(trimmed(s)).len() > 0,
{
    let lo = first_solid(s, 0);
    lemma_first_solid(s, 0);
    lemma_last_solid(s, lo, s.len() as int);
    let t = trimmed(s);
    assert(t[0] == s[lo]);
    assert(first_solid(t, 0) == 0);
    lemma_last_solid(t, 0, t.len() as int);
}

/// The characters of `s`.
pub fn chars_of(s: &str) -> (r: Vec<char>)
    ensures
        r@ == s@,
{
    let mut v: Vec<char> = Vec::new();
    let mut it = s.chars();
    let ghost mut i: int = 0;
    loop
        invariant_except_break
            0 <= i <= s@.len(),
            vstd::std_specs::iter::IteratorSpec::remaining(&it) == s@.skip(i),
            v@ == s@.take(i),
            vstd::std_specs::iter::IteratorSpec::obeys_prophetic_iter_laws(&it),
            vstd::std_specs::iter::IteratorSpec::decrease(&it) is Some,
        ensures
            v@ == s@,
        decreases vstd::std_specs::iter::IteratorSpec::decrease(&it)->0,
    {
        match it.next() {
            Some(c) => {
                v.push(c);
                proof {
                    assert(s@.skip(i).drop_first() =~= s@.skip(i + 1));
                    assert(s@.take(i + 1) =~= s@.take(i).push(s@[i]));
                    i = i + 1;
                }
            },
            None => {
                proof {
                    assert(s@.skip(i).len() == 0);
                    assert(s@.take(i) =~= s@);
                }
                break;
            },
        }
    }
    v
}

/// The string made of the characters `v[from..to]`.
pub fn string_of(v: &[char], from: usize, to: usize) -> (r: String)
    requires
        from <= to <= v@.len(),
    ensures
        r@ == v@.subrange(from as int, to as int),
{
    let mut s: String = String::new();
    let mut i: usize = from;
    while i < to
        invariant
            from <= i <= to <= v@.len(),
            s@ == v@.subrange(from as int, i as int),
        decreases to - i,
    {
        s.push(v[i]);
        proof {
            assert(v@.subrange(from as int, i + 1) =~= v@.subrange(from as int, i as int).push(
                v@[i as int],
            ));
        }
        i = i + 1;
    }
    s
}

/// The string made of all the characters of `v`.
pub fn string_from(v: &Vec<char>) -> (r: String)
    ensures
        r@ == v@,
{
    let r = string_of(v.as_slice(), 0, v.len());
    proof {
        assert(v@.subrange(0, v@.len() as int) =~= v@);
    }
    r
}

/// Whether `p` occurs in `s` at `i`.
pub fn matches_at(s: &[char], p: &[char], i: usize) -> (r: bool)
    ensures
        r == occurs_at(s@, p@, i as int),
{
    if i > s.len() || p.len() > s.len() - i {
        return false;
    }
    let n: usize = s.len();
    let mut k: usize = 0;
    while k < p.len()
        invariant
            k <= p@.len(),
            n == s@.len(),
            i + p@.len() <= n,
            forall|m: int| 0 <= m < k ==> s@[i + m] == p@[m],
        decreases p@.len() - k,
    {
        if s[i + k] != p[k] {
            proof {
                assert(s@.subrange(i as int, i + p@.len())[k as int] == s@[i + k]);
            }
            return false;
        }
        k = k + 1;
    }
    proof {
        assert(s@.subrange(i as int, i + p@.len()) =~= p@);
    }
    true
}

/// Appends the characters of `p` to `out`.
pub fn push_all(out: &mut Vec<char>, p: &[char])
    ensures
        final(out)@ == old(out)@ + p@,
{
    let mut k: usize = 0;
    proof {
        assert(out@ =~= out@ + p@.take(0));
    }
    while k < p.len()
        invariant
            k <= p@.len(),
            out@ == old(out)@ + p@.take(k as int),
        decreases p@.len() - k,
    {
        out.push(p[k]);
        proof {
            assert(p@.take(k + 1) =~= p@.take(k as int).push(p@[k as int]));
        }
        k = k + 1;
    }
    proof {
        assert(p@.take(k as int) =~= p@);
    }
}

/// `s` with every occurrence of the non-empty pattern `p` replaced by `r`.
pub fn replace_chars(s: &Vec<char>, p: &[char], r: &[char]) -> (out: Vec<char>)
    requires
        p@.len() > 0,
    ensures
        out@ == replaced(s@, p@, r@),
{
    let mut out: Vec<char> = Vec::new();
    let mut i: usize = 0;
    proof {
        assert(out@ + replaced_from(s@, p@, r@, 0) =~= replaced(s@, p@, r@));
    }
    while i < s.len()
        invariant
            i <= s@.len(),
            p@.len() > 0,
            out@ + replaced_from(s@, p@, r@, i as int) == replaced(s@, p@, r@),
        decreases s@.len() - i,
    {
        if matches_at(s.as_slice(), p, i) {
            let ghost before = out@;
            push_all(&mut out, r);
            proof {
                assert(before + (r@ + replaced_from(s@, p@, r@, i + p@.len())) =~= out@
                    + replaced_from(s@, p@, r@, i + p@.len()));
            }
            i = i + p.len();
        } else {
            let ghost before = out@;
            out.push(s[i]);
            proof {
                assert(before + (seq![s@[i as int]] + replaced_from(s@, p@, r@, i + 1)) =~= out@
                    + replaced_from(s@, p@, r@, i + 1));
            }
            i = i + 1;
        }
    }
    proof {
        assert(out@ + Seq::<char>::empty() =~= out@);
    }
    out
}

/// `s` with every occurrence of the non-empty text `p` replaced by `r`.
pub fn replace_text(s: &Vec<char>, p: &str, r: &str) -> (out: Vec<char>)
    requires
        p@.len() > 0,
    ensures
        out@ == replaced(s@, p@, r@),
{
    let pc = chars_of(p);
    let rc = chars_of(r);
    replace_chars(s, pc.as_slice(), rc.as_slice())
}

/// Whether `p` occurs anywhere in `s`.
pub fn contains_text(s: &Vec<char>, p: &str) -> (r: bool)
    ensures
        r == occurs_in(s@, p@),
{
    let pc = chars_of(p);
    let mut i: usize = 0;
    while i < s.len()
        invariant
            i <= s@.len(),
            pc@ == p@,
            forall|k: int| 0 <= k < i ==> !occurs_at(s@, p@, k),
        decreases s@.len() - i,
    {
        if matches_at(s.as_slice(), pc.as_slice(), i) {
            return true;
        }
        i = i + 1;
    }
    if matches_at(s.as_slice(), pc.as_slice(), i) {
        return true;
    }
    false
}

/// The pieces of `s` between occurrences of the non-empty delimiter `d`.
pub fn split_text(s: &Vec<char>, d: &str) -> (out: Vec<String>)
    requires
        d@.len() > 0,
    ensures
        texts(out@) == split_on(s@, d@),
{
    let dc = chars_of(d);
    let mut out: Vec<String> = Vec::new();
    let mut start: usize = 0;
    let mut i: usize = 0;
    proof {
        assert(texts(out@) + split_from(s@, d@, 0, 0) =~= split_on(s@, d@));
    }
    while i < s.len()
        invariant
            start <= i <= s@.len(),
            dc@ == d@,
            d@.len() > 0,
            texts(out@) + split_from(s@, d@, start as int, i as int) == split_on(s@, d@),
        decreases s@.len() - i,
    {
        if matches_at(s.as_slice(), dc.as_slice(), i) {
            let ghost before = out@;
            let piece = string_of(s.as_slice(), start, i);
            out.push(piece);
            let next: usize = i + dc.len();
            proof {
                assert(texts(out@) =~= texts(before).push(s@.subrange(start as int, i as int)));
                assert(texts(before) + (seq![s@.subrange(start as int, i as int)] + split_from(
                    s@,
                    d@,
                    next as int,
                    next as int,
                )) =~= texts(out@) + split_from(s@, d@, next as int, next as int));
            }
            start = next;
            i = next;
        } else {
            i = i + 1;
        }
    }
    let ghost before = out@;
    let piece = string_of(s.as_slice(), start, s.len());
    out.push(piece);
    proof {
        assert(texts(out@) =~= texts(before) + seq![s@.subrange(start as int, s@.len() as int)]);
    }
    out
}

/// The range of `s` that is left once whitespace at its ends is dropped.
pub fn trim_range(s: &Vec<char>) -> (r: (usize, usize))
    ensures
        r.0 <= r.1 <= s@.len(),
        s@.subrange(r.0 as int, r.1 as int) == trimmed(s@),
{
    let mut lo: usize = 0;
    while lo < s.len() && s[lo].is_whitespace()
        invariant
            lo <= s@.len(),
            first_solid(s@, lo as int) == first_solid(s@, 0),
        decreases s@.len() - lo,
    {
        lo = lo + 1;
    }
    let mut hi: usize = s.len();
    while hi > lo && s[hi - 1].is_whitespace()
        invariant
            lo <= hi <= s@.len(),
            last_solid(s@, lo as int, hi as int) == last_solid(s@, lo as int, s@.len() as int),
        decreases hi,
    {
        hi = hi - 1;
    }
    (lo, hi)
}

/// `s` without the whitespace at its two ends.
pub fn trim_text(s: &str) -> (r: String)
    ensures
        r@ == trimmed(s@),
{
    let v = chars_of(s);
    let range = trim_range(&v);
    string_of(v.as_slice(), range.0, range.1)
}

/// The texts of `parts` with `sep` between neighbours.
pub fn join_text(parts: &Vec<String>, sep: &str) -> (r: String)
    ensures
        r@ == joined(texts(parts@), sep@),
{
    let sc = chars_of(sep);
    let mut out: Vec<char> = Vec::new();
    let mut i: usize = 0;
    while i < parts.len()
        invariant
            i <= parts@.len(),
            sc@ == sep@,
            out@ == joined(texts(parts@).take(i as int), sep@),
        decreases parts@.len() - i,
    {
        let ghost done = texts(parts@).take(i as int);
        let ghost next = texts(parts@).take(i + 1);
        if i > 0 {
            push_all(&mut out, sc.as_slice());
        }
        let pc = chars_of(parts[i].as_str());
        push_all(&mut out, pc.as_slice());
        proof {
            assert(next.drop_last() =~= done);
            assert(next.last() == parts@[i as int]@);
            if i == 0 {
                assert(out@ =~= next[0]);
            }
        }
        i = i + 1;
    }
    proof {
        assert(texts(parts@).take(i as int) =~= texts(parts@));
    }
    string_from(&out)
}

/// The decimal digits of `n`, most significant first.
pub open spec fn decimal(n: nat) -> Seq<char>
    decreases n,
{
    if n < 10 {
        seq![digit_char(n)]
    } else {
        decimal(n / 10).push(digit_char(n % 10))
    }
}

/// The character of a decimal digit.
pub open spec fn digit_char(d: nat) -> char {
    (('0' as nat) + d) as char
}

fn digit(d: u128) -> (c: char)
    requires
        d < 10,
    ensures
        c == digit_char(d as nat),
{
    match d {
        0 => '0',
        1 => '1',
        2 => '2',
        3 => '3',
        4 => '4',
        5 => '5',
        6 => '6',
        7 => '7',
        8 => '8',
        _ => '9',
    }
}

fn push_decimal(out: &mut Vec<char>, n: u128)
    ensures
        final(out)@ == old(out)@ + decimal(n as nat),
    decreases n,
{
    if n >= 10 {
        push_decimal(out, n / 10);
    }
    out.push(digit(n % 10));
    proof {
        if n >= 10 {
            assert(out@ =~= old(out)@ + decimal(n as nat));
        } else {
            assert(out@ =~= old(out)@ + decimal(n as nat));
        }
    }
}

/// `n` in decimal notation.
pub fn decimal_text(n: u64) -> (r: String)
    ensures
        r@ == decimal(n as nat),
{
    let mut out: Vec<char> = Vec::new();
    push_decimal(&mut out, n as u128);
    proof {
        assert(Seq::<char>::empty() + decimal(n as nat) =~= decimal(n as nat));
    }
    string_from(&out)
}

/// A number of up to 128 bits as it is written.
pub fn decimal_wide(n: u128) -> (r: String)
    ensures
        r@ == decimal(n as nat),
{
    let mut out: Vec<char> = Vec::new();
    push_decimal(&mut out, n);
    proof {
        assert(Seq::<char>::empty() + decimal(n as nat) =~= decimal(n as nat));
    }
    string_from(&out)
}

/// The texts of `a` and `b`, one after the other.
pub fn concat_text(a: &str, b: &str) -> (r: String)
    ensures
        r@ == a@ + b@,
{
    let mut out: Vec<char> = chars_of(a);
    let bc = chars_of(b);
    push_all(&mut out, bc.as_slice());
    string_from(&out)
}

/// Three texts one after the other.
pub fn concat3(a: &str, b: &str, c: &str) -> (r: String)
    ensures
        r@ == a@ + b@ + c@,
{
    let head = concat_text(a, b);
    concat_text(head.as_str(), c)
}

/// Whether two texts are equal.
pub fn same_text(a: &str, b: &str) -> (r: bool)
    ensures
        r == (a@ == b@),
{
    let ac = chars_of(a);
    let bc = chars_of(b);
    if ac.len() != bc.len() {
        return false;
    }
    let r = matches_at(ac.as_slice(), bc.as_slice(), 0);
    proof {
        assert(ac@.subrange(0, ac@.len() as int) =~= ac@);
    }
    r
}

proof fn lemma_single_occurs(s: Seq<char>, c: char, i: int)
    ensures
        occurs_at(s, seq![c], i) <==> 0 <= i < s.len() && s[i] == c,
{
    if 0 <= i < s.len() {
        assert(s.subrange(i, i + 1) =~= seq![s[i]]);
        assert(seq![s[i]][0] == s[i]);
        assert(seq![c][0] == c);
    }
}

proof fn lemma_split_shift(p: Seq<char>, y: Seq<char>, c: char, start: int, i: int)
    requires
        0 <= start <= i <= y.len(),
    ensures
        split_from(p + y, seq![c], p.len() + start, p.len() + i) == split_from(
            y,
            seq![c],
            start,
            i,
        ),
    decreases y.len() - i,
{
    let s = p + y;
    let n = p.len() as int;
    lemma_single_occurs(s, c, n + i);
    lemma_single_occurs(y, c, i);
    if i >= y.len() {
        assert(s.subrange(n + start, s.len() as int) =~= y.subrange(start, y.len() as int));
    } else {
        assert(s[n + i] == y[i]);
        if y[i] == c {
            lemma_split_shift(p, y, c, i + 1, i + 1);
            assert(s.subrange(n + start, n + i) =~= y.subrange(start, i));
        } else {
            lemma_split_shift(p, y, c, start, i + 1);
        }
    }
}

proof fn lemma_split_at(x: Seq<char>, y: Seq<char>, c: char, start: int, i: int)
    requires
        0 <= start <= i <= x.len(),
    ensures
        split_from(x + seq![c] + y, seq![c], start, i) == split_from(x, seq![c], start, i)
            + split_on(y, seq![c]),
    decreases x.len() - i,
{
    let s = x + seq![c] + y;
    lemma_single_occurs(s, c, i);
    lemma_single_occurs(x, c, i);
    if i == x.len() {
        assert(s[i] == c);
        assert(s =~= (x + seq![c]) + y);
        lemma_split_shift(x + seq![c], y, c, 0, 0);
        assert(s.subrange(start, i) =~= x.subrange(start, x.len() as int));
    } else {
        assert(s[i] == x[i]);
        if x[i] == c {
            lemma_split_at(x, y, c, i + 1, i + 1);
            assert(s.subrange(start, i) =~= x.subrange(start, i));
            assert(seq![x.subrange(start, i)] + (split_from(x, seq![c], i + 1, i + 1) + split_on(
                y,
                seq![c],
            )) =~= (seq![x.subrange(start, i)] + split_from(x, seq![c], i + 1, i + 1)) + split_on(
                y,
                seq![c],
            ));
        } else {
            lemma_split_at(x, y, c, start, i + 1);
        }
    }
}

proof fn lemma_split_whole(t: Seq<char>, c: char, i: int)
    requires
        0 <= i <= t.len(),
        !t.contains(c),
    ensures
        split_from(t, seq![c], 0, i) == seq![t],
    decreases t.len() - i,
{
    lemma_single_occurs(t, c, i);
    if i >= t.len() {
        assert(t.subrange(0, t.len() as int) =~= t);
    } else {
        assert(t.contains(t[i]));
        lemma_split_whole(t, c, i + 1);
    }
}

/// Splitting undoes joining: texts that do not hold the separating character come
/// back unchanged.
pub proof fn split_undoes_join(parts: Seq<Seq<char>>, c: char)
    requires
        parts.len() > 0,
        forall|k: int| 0 <= k < parts.len() ==> !(#[trigger] parts[k]).contains(c),
    ensures
        split_on(joined(parts, seq![c]), seq![c]) == parts,
    decreases parts.len(),
{
    if parts.len() == 1 {
        lemma_split_whole(parts[0], c, 0);
        assert(parts =~= seq![parts[0]]);
    } else {
        let rest = parts.drop_last();
        assert forall|k: int| 0 <= k < rest.len() implies !(#[trigger] rest[k]).contains(c) by {
            assert(rest[k] == parts[k]);
        }
        split_undoes_join(rest, c);
        assert(!parts[parts.len() - 1].contains(c));
        lemma_split_whole(parts.last(), c, 0);
        lemma_split_at(joined(rest, seq![c]), parts.last(), c, 0, 0);
        assert(parts =~= rest + seq![parts.last()]);
    }
}

/// Whether a text begins with another.
pub fn begins_with(s: &Vec<char>, p: &Vec<char>) -> (r: bool)
    ensures
        r == p@.is_prefix_of(s@),
{
    if p.len() > s.len() {
        return false;
    }
    let mut i: usize = 0;
    while i < p.len()
        invariant
            i <= p@.len() <= s@.len(),
            forall|k: int| 0 <= k < i ==> p@[k] == s@[k],
        decreases p@.len() - i,
    {
        if p[i] != s[i] {
            proof {
                assert(s@.subrange(0, p@.len() as int)[i as int] != p@[i as int]);
            }
            return false;
        }
        i = i + 1;
    }
    proof {
        assert(p@ =~= s@.subrange(0, p@.len() as int));
    }
    true
}

/// Whether a character is an ASCII digit.
pub open spec fn is_digit(c: char) -> bool {
    '0' <= c && c <= '9'
}

/// The number that decimal digits write; nothing where one of them is no digit.
pub open spec fn digits_number(s: Seq<char>) -> Option<nat>
    decreases s.len(),
{
    if s.len() == 0 {
        Some(0)
    } else {
        match digits_number(s.drop_last()) {
            Some(v) => if is_digit(s.last()) {
                Some((v * 10 + (s.last() as int - '0' as int)) as nat)
            } else {
                None
            },
            None => None,
        }
    }
}

/// The number that a text writes: digits, at least one, and maybe a plus sign
/// before them.
pub open spec fn number_of(s: Seq<char>) -> Option<nat> {
    let digits = if s.len() > 0 && s[0] == '+' {
        s.subrange(1, s.len() as int)
    } else {
        s
    };
    if digits.len() == 0 {
        None
    } else {
        digits_number(digits)
    }
}

/// A number that fits in 64 bits.
pub open spec fn fits_u64(n: Option<nat>) -> Option<u64> {
    match n {
        Some(v) => if v <= u64::MAX {
            Some(v as u64)
        } else {
            None
        },
        None => None,
    }
}

proof fn lemma_digits_grow(s: Seq<char>, k: int)
    requires
        0 <= k <= s.len(),
    ensures
        digits_number(s.take(k)) is None ==> digits_number(s) is None,
        digits_number(s.take(k)) is Some && digits_number(s) is Some ==> digits_number(s.take(k))->0
            <= digits_number(s)->0,
    decreases s.len() - k,
{
    if k == s.len() {
        assert(s.take(k) =~= s);
    } else {
        assert(s.take(k + 1).drop_last() =~= s.take(k));
        lemma_digits_grow(s, k + 1);
    }
}

/// The number that a text writes, where it fits in 64 bits.
pub fn parse_u64(text: &str) -> (r: Option<u64>)
    ensures
        r == fits_u64(number_of(text@)),
{
    let c = chars_of(text);
    let from: usize = if c.len() > 0 && c[0] == '+' {
        1
    } else {
        0
    };
    let ghost digits = c@.subrange(from as int, c@.len() as int);
    proof {
        if from == 0 {
            assert(digits =~= c@);
        }
    }
    if from >= c.len() {
        return None;
    }
    let mut v: u64 = 0;
    let mut i: usize = from;
    proof {
        assert(digits.take(0) =~= Seq::empty());
    }
    while i < c.len()
        invariant
            from <= i <= c@.len(),
            from < c@.len(),
            c@ == text@,
            from == (if c@.len() > 0 && c@[0] == '+' {
                1int
            } else {
                0
            }),
            digits == c@.subrange(from as int, c@.len() as int),
            number_of(text@) == digits_number(digits),
            digits_number(digits.take(i - from)) == Some(v as nat),
        decreases c@.len() - i,
    {
        let d: char = c[i];
        proof {
            assert(digits.take(i - from + 1).drop_last() =~= digits.take(i - from));
            assert(digits.take(i - from + 1).last() == d);
            lemma_digits_grow(digits, i - from + 1);
        }
        if d < '0' || d > '9' {
            return None;
        }
        let n: u64 = (d as u32 - '0' as u32) as u64;
        if v > (u64::MAX - n) / 10 {
            proof {
                assert(v * 10 + n > u64::MAX);
            }
            return None;
        }
        v = v * 10 + n;
        i = i + 1;
    }
    proof {
        assert(digits.take(digits.len() as int) =~= digits);
    }
    Some(v)
}

proof fn lemma_digit(d: nat)
    requires
        d < 10,
    ensures
        is_digit(digit_char(d)),
        digit_char(d) as int - '0' as int == d,
        digit_char(d) != '+',
{
}

proof fn lemma_decimal_digits(n: nat)
    ensures
        decimal(n).len() > 0,
        digits_number(decimal(n)) == Some(n),
        forall|i: int| 0 <= i < decimal(n).len() ==> is_digit(#[trigger] decimal(n)[i]),
    decreases n,
{
    if n < 10 {
        lemma_digit(n);
        assert(decimal(n).drop_last() =~= Seq::empty());
        reveal_with_fuel(digits_number, 2);
    } else {
        lemma_decimal_digits(n / 10);
        lemma_digit(n % 10);
        assert(decimal(n).drop_last() =~= decimal(n / 10));
    }
}

/// Reading a number undoes writing it.
pub proof fn reading_undoes_writing(n: nat)
    ensures
        number_of(decimal(n)) == Some(n),
        forall|i: int| 0 <= i < decimal(n).len() ==> is_digit(#[trigger] decimal(n)[i]),
{
    lemma_decimal_digits(n);
    assert(is_digit(decimal(n)[0]));
}

} // verus!
