use wikiwho::differ::{differ_compare, DiffOp};
use wikiwho::matcher::{Match, OpTag, Ratio, SequenceMatcher};

fn value(r: Ratio) -> f64 {
    r.num as f64 / r.den as f64
}

fn s(x: &str) -> String {
    x.to_string()
}

fn keeps(values: &[&str]) -> Vec<DiffOp> {
    values.iter().map(|v| DiffOp::Keep(s(v))).collect()
}

#[test]
fn empty_inputs_yield_empty_diff() {
    assert_eq!(differ_compare(&[], &[]), Vec::<DiffOp>::new());
}

#[test]
fn differ_empty_prev_yields_all_inserts() {
    let prev: Vec<String> = vec![];
    let curr = vec![s("a"), s("b"), s("c")];
    assert_eq!(
        differ_compare(&prev, &curr),
        vec![
            DiffOp::Insert(s("a")),
            DiffOp::Insert(s("b")),
            DiffOp::Insert(s("c")),
        ]
    );
}

#[test]
fn differ_empty_curr_yields_all_deletes() {
    let prev = vec![s("a"), s("b"), s("c")];
    let curr: Vec<String> = vec![];
    assert_eq!(
        differ_compare(&prev, &curr),
        vec![
            DiffOp::Delete(s("a")),
            DiffOp::Delete(s("b")),
            DiffOp::Delete(s("c")),
        ]
    );
}

#[test]
fn identical_sequences_are_all_keeps() {
    let v = vec![s("foo"), s("bar"), s("baz")];
    assert_eq!(differ_compare(&v, &v), keeps(&["foo", "bar", "baz"]));
}

#[test]
fn single_token_substitution_in_middle() {
    let prev = vec![s("foo"), s("bar"), s("baz")];
    let curr = vec![s("foo"), s("qux"), s("baz")];
    assert_eq!(
        differ_compare(&prev, &curr),
        vec![
            DiffOp::Keep(s("foo")),
            DiffOp::Delete(s("bar")),
            DiffOp::Insert(s("qux")),
            DiffOp::Keep(s("baz")),
        ]
    );
}

#[test]
fn differ_pure_insertion_in_middle() {
    let prev = vec![s("a"), s("c")];
    let curr = vec![s("a"), s("b"), s("c")];
    assert_eq!(
        differ_compare(&prev, &curr),
        vec![
            DiffOp::Keep(s("a")),
            DiffOp::Insert(s("b")),
            DiffOp::Keep(s("c")),
        ]
    );
}

#[test]
fn differ_pure_deletion_in_middle() {
    let prev = vec![s("a"), s("b"), s("c")];
    let curr = vec![s("a"), s("c")];
    assert_eq!(
        differ_compare(&prev, &curr),
        vec![
            DiffOp::Keep(s("a")),
            DiffOp::Delete(s("b")),
            DiffOp::Keep(s("c")),
        ]
    );
}

#[test]
fn close_pair_replace_orders_dash_then_plus() {
    let prev = vec![s("hello"), s("world")];
    let curr = vec![s("hello"), s("worle")];
    let ops = differ_compare(&prev, &curr);
    assert_eq!(
        ops,
        vec![
            DiffOp::Keep(s("hello")),
            DiffOp::Delete(s("world")),
            DiffOp::Insert(s("worle")),
        ]
    );
}

#[test]
fn fancy_replace_can_interleave_dash_plus() {
    let prev = vec![s("hello")];
    let curr = vec![s("world"), s("hella")];
    let ops = differ_compare(&prev, &curr);
    assert_eq!(
        ops,
        vec![
            DiffOp::Insert(s("world")),
            DiffOp::Delete(s("hello")),
            DiffOp::Insert(s("hella")),
        ]
    );
}

#[test]
fn duplicate_tokens_are_matched_left_to_right() {
    let prev = vec![s("the"), s("cat"), s("the"), s("rat")];
    let curr = vec![s("the"), s("dog"), s("the"), s("rat")];
    let ops = differ_compare(&prev, &curr);
    assert_eq!(
        ops,
        vec![
            DiffOp::Keep(s("the")),
            DiffOp::Delete(s("cat")),
            DiffOp::Insert(s("dog")),
            DiffOp::Keep(s("the")),
            DiffOp::Keep(s("rat")),
        ]
    );
}

#[test]
fn dissimilar_replace_with_unequal_lengths_inserts_first() {
    let prev = vec![s("a"), s("b")];
    let curr = vec![s("x"), s("y"), s("z")];
    let ops = differ_compare(&prev, &curr);
    assert_eq!(
        ops,
        vec![
            DiffOp::Delete(s("a")),
            DiffOp::Delete(s("b")),
            DiffOp::Insert(s("x")),
            DiffOp::Insert(s("y")),
            DiffOp::Insert(s("z")),
        ]
    );
}

#[test]
fn dissimilar_replace_with_longer_a_inserts_first() {
    let prev = vec![s("a"), s("b"), s("c")];
    let curr = vec![s("x"), s("y")];
    let ops = differ_compare(&prev, &curr);
    assert_eq!(
        ops,
        vec![
            DiffOp::Insert(s("x")),
            DiffOp::Insert(s("y")),
            DiffOp::Delete(s("a")),
            DiffOp::Delete(s("b")),
            DiffOp::Delete(s("c")),
        ]
    );
}

#[test]
fn transcript_reconstructs_both_sequences() {
    let cases: &[(&[&str], &[&str])] = &[
        (&[], &["x"]),
        (&["x"], &[]),
        (&["a", "b", "c"], &["a", "b", "c"]),
        (&["the", "cat"], &["the", "dog"]),
        (&["foo", "bar"], &["bar", "foo"]),
        (&["a", "b", "c", "d"], &["e", "f", "g", "h"]),
        (&["1", "2", "3"], &["3", "2", "1"]),
    ];
    for (a_slice, b_slice) in cases {
        let a: Vec<String> = a_slice.iter().map(|s| (*s).to_string()).collect();
        let b: Vec<String> = b_slice.iter().map(|s| (*s).to_string()).collect();
        let ops = differ_compare(&a, &b);
        let reconstructed_b: Vec<String> = ops
            .iter()
            .filter_map(|op| match op {
                DiffOp::Keep(v) | DiffOp::Insert(v) => Some(v.clone()),
                DiffOp::Delete(_) => None,
            })
            .collect();
        let reconstructed_a: Vec<String> = ops
            .iter()
            .filter_map(|op| match op {
                DiffOp::Keep(v) | DiffOp::Delete(v) => Some(v.clone()),
                DiffOp::Insert(_) => None,
            })
            .collect();
        assert_eq!(
            reconstructed_a, a,
            "transcript should reconstruct a: {a_slice:?} -> {b_slice:?}"
        );
        assert_eq!(
            reconstructed_b, b,
            "transcript should reconstruct b: {a_slice:?} -> {b_slice:?}"
        );
    }
}

#[test]
fn sequence_matcher_simple_lcs_example() {
    let a: Vec<char> = "qabxcd".chars().collect();
    let b: Vec<char> = "abycdf".chars().collect();
    let mut sm = SequenceMatcher::<char>::new(true);
    sm.set_seqs(a, b);
    let opcodes = sm.get_opcodes();
    let tags: Vec<OpTag> = opcodes.iter().map(|o| o.tag).collect();
    assert_eq!(
        tags,
        vec![
            OpTag::Delete,
            OpTag::Equal,
            OpTag::Replace,
            OpTag::Equal,
            OpTag::Insert,
        ]
    );
}

#[test]
fn ratio_doctest_matches_python() {
    let a: Vec<char> = "abcd".chars().collect();
    let b: Vec<char> = "bcde".chars().collect();
    let mut sm = SequenceMatcher::<char>::new(true);
    sm.set_seqs(a, b);
    let r = value(sm.ratio());
    assert!((r - 0.75).abs() < 1e-9, "ratio = {r}");
}

#[test]
fn find_longest_match_doctest_matches_python() {
    let a: Vec<char> = " abcd".chars().collect();
    let b: Vec<char> = "abcd abcd".chars().collect();
    let mut sm = SequenceMatcher::<char>::new(true);
    sm.set_seqs(a, b);
    let m = sm.find_longest_match(0, 5, 0, 9);
    assert_eq!(
        m,
        Match {
            a_start: 0,
            b_start: 4,
            size: 5,
        }
    );
}

#[test]
fn get_matching_blocks_doctest_matches_python() {
    let a: Vec<char> = "abxcd".chars().collect();
    let b: Vec<char> = "abcd".chars().collect();
    let mut sm = SequenceMatcher::<char>::new(true);
    sm.set_seqs(a, b);
    let blocks = sm.get_matching_blocks();
    assert_eq!(
        blocks,
        vec![
            Match { a_start: 0, b_start: 0, size: 2 },
            Match { a_start: 3, b_start: 2, size: 2 },
            Match { a_start: 5, b_start: 4, size: 0 },
        ]
    );
}

#[test]
fn autojunk_does_not_break_correctness_on_long_sequences() {
    let mut b: Vec<u32> = vec![999; 200];
    b.push(42);
    let a: Vec<u32> = {
        let mut v = vec![999; 100];
        v.push(42);
        v
    };
    let mut sm = SequenceMatcher::<u32>::new(true);
    sm.set_seqs(a.clone(), b.clone());
    let m = sm.find_longest_match(0, a.len(), 0, b.len());
    assert_eq!(
        m,
        Match {
            a_start: 0,
            b_start: 100,
            size: 101
        }
    );

    let mut sm2 = SequenceMatcher::<u32>::new(false);
    let (a_len, b_len) = (a.len(), b.len());
    sm2.set_seqs(a, b);
    let m2 = sm2.find_longest_match(0, a_len, 0, b_len);
    assert_eq!(m, m2);
}

#[test]
fn quick_ratio_is_upper_bound_on_ratio() {
    let prev = [s("a"), s("b"), s("c"), s("a")];
    let curr = [s("c"), s("b"), s("a"), s("d")];
    let a: Vec<char> = prev.join("").chars().collect();
    let b: Vec<char> = curr.join("").chars().collect();
    let mut sm = SequenceMatcher::<char>::new(true);
    sm.set_seqs(a, b);
    let r = value(sm.ratio());
    let qr = value(sm.quick_ratio());
    let rqr = value(sm.real_quick_ratio());
    assert!(qr >= r, "quick_ratio={qr} < ratio={r}");
    assert!(rqr >= qr, "real_quick_ratio={rqr} < quick_ratio={qr}");
}

fn words(text: &str) -> Vec<String> {
    text.split_whitespace().map(String::from).collect()
}

fn expected(steps: &str) -> Vec<DiffOp> {
    steps
        .split_whitespace()
        .map(|w| match w.chars().next() {
            Some('=') => DiffOp::Keep(s(&w[1..])),
            Some('-') => DiffOp::Delete(s(&w[1..])),
            _ => DiffOp::Insert(s(&w[1..])),
        })
        .collect()
}

#[test]
fn differ_matches_python_on_curated_cases() {
    let cases = [
        (
            "",
            "",
            "",
        ),
        (
            "",
            "a b c",
            "+a +b +c",
        ),
        (
            "a b c",
            "",
            "-a -b -c",
        ),
        (
            "foo bar baz",
            "foo bar baz",
            "=foo =bar =baz",
        ),
        (
            "foo bar baz",
            "foo qux baz",
            "=foo -bar +qux =baz",
        ),
        (
            "a c",
            "a b c",
            "=a +b =c",
        ),
        (
            "a b c",
            "a c",
            "=a -b =c",
        ),
        (
            "hello world",
            "hello worle",
            "=hello -world +worle",
        ),
        (
            "hello",
            "world hella",
            "+world -hello +hella",
        ),
        (
            "the cat the rat",
            "the dog the rat",
            "=the -cat +dog =the =rat",
        ),
        (
            "a b",
            "x y z",
            "-a -b +x +y +z",
        ),
        (
            "a b c",
            "x y",
            "+x +y -a -b -c",
        ),
        (
            "a b c d",
            "a c b d",
            "=a +c =b -c =d",
        ),
        (
            "foo bar",
            "bar foo",
            "+bar =foo -bar",
        ),
        (
            "1 2 3",
            "3 2 1",
            "+3 +2 =1 -2 -3",
        ),
        (
            "foobar qux abcdef",
            "fewbar zzz ghijkl",
            "-foobar -qux -abcdef +fewbar +zzz +ghijkl",
        ),
        (
            "The quick brown fox jumps over the lazy dog .",
            "The quick brown fox jumps over the lazy cat .",
            "=The =quick =brown =fox =jumps =over =the =lazy -dog +cat =.",
        ),
        (
            "alpha beta gamma delta epsilon",
            "spam",
            "+spam -alpha -beta -gamma -delta -epsilon",
        ),
        (
            "spam",
            "alpha beta gamma delta epsilon",
            "-spam +alpha +beta +gamma +delta +epsilon",
        ),
        (
            "aa bb cc dd",
            "xxx yyy zzz www vvv",
            "-aa -bb -cc -dd +xxx +yyy +zzz +www +vvv",
        ),
        (
            "xxx abcde yyy zzz",
            "abcdf",
            "-xxx -abcde +abcdf -yyy -zzz",
        ),
    ];
    for (prev, curr, steps) in cases {
        assert_eq!(
            differ_compare(&words(prev), &words(curr)),
            expected(steps),
            "{prev:?} -> {curr:?}"
        );
    }

    let mut prev = Vec::new();
    let mut curr = Vec::new();
    let mut steps = Vec::new();
    for i in 0..250 {
        if i % 5 == 0 {
            prev.push(s("the"));
            curr.push(s("the"));
            steps.push(DiffOp::Keep(s("the")));
        } else if i % 7 == 0 {
            prev.push(format!("w{i}"));
            curr.push(format!("x{i}"));
            steps.push(DiffOp::Delete(format!("w{i}")));
            steps.push(DiffOp::Insert(format!("x{i}")));
        } else {
            prev.push(format!("w{i}"));
            curr.push(format!("w{i}"));
            steps.push(DiffOp::Keep(format!("w{i}")));
        }
    }
    assert_eq!(differ_compare(&prev, &curr), steps);
}

#[test]
fn mixed_edits_have_known_transcripts() {
    let cases = [
        (
            "abd long cart ab abc lunger",
            "abd long cart ab ab lunger",
            "=abd =long =cart =ab -abc +ab =lunger",
        ),
        (
            "ab abc long long",
            "ab abc long lunger",
            "=ab =abc =long -long +lunger",
        ),
        (
            "cat",
            "cat cat",
            "=cat +cat",
        ),
        (
            "ab xyz ab lunger abd xyw long",
            "ab cart ab lunger xyw long",
            "=ab -xyz +cart =ab =lunger -abd =xyw =long",
        ),
        (
            "cat cat",
            "cat",
            "=cat -cat",
        ),
        (
            "cart lunger long q longer cat longer q",
            "cart lunger long abd longer cat longer xyw xyw",
            "=cart =lunger =long -q +abd =longer =cat =longer -q +xyw +xyw",
        ),
        (
            "abc lunger",
            "lunger q lunger",
            "-abc =lunger +q +lunger",
        ),
        (
            "carts q cat longer cat longer",
            "carts q longer cat longer cat longer",
            "=carts =q +longer =cat =longer =cat =longer",
        ),
        (
            "ab carts",
            "longer",
            "+longer -ab -carts",
        ),
        (
            "cat abc longer",
            "xyw abc longer",
            "-cat +xyw =abc =longer",
        ),
        (
            "long long longer abc",
            "long long abc lunger",
            "=long =long -longer =abc +lunger",
        ),
        (
            "carts long q cart long",
            "xyz abd q cart long",
            "-carts -long +xyz +abd =q =cart =long",
        ),
        (
            "cat abd xyw xyw ab abd long lunger",
            "longer cat abd xyw xyw ab long lunger long",
            "+longer =cat =abd =xyw =xyw =ab -abd =long =lunger +long",
        ),
        (
            "long long abc longer cart long ab",
            "long long abc xyz q long ab",
            "=long =long =abc -longer -cart +xyz +q =long =ab",
        ),
        (
            "abc",
            "",
            "-abc",
        ),
        (
            "cat ab abc xyz cat long",
            "cat ab xyz long",
            "=cat =ab -abc =xyz -cat =long",
        ),
        (
            "abc longer",
            "ab carts",
            "-abc +ab -longer +carts",
        ),
        (
            "q abd carts lunger ab lunger xyw cart abc",
            "q abd lunger lunger xyz cart abc",
            "=q =abd -carts =lunger -ab =lunger -xyw +xyz =cart =abc",
        ),
        (
            "long carts xyz xyz",
            "carts xyz abc xyz",
            "-long =carts =xyz +abc =xyz",
        ),
        (
            "abc xyz longer xyz",
            "cart cat xyz xyz",
            "-abc +cart +cat =xyz -longer =xyz",
        ),
        (
            "long carts",
            "",
            "-long -carts",
        ),
        (
            "carts long",
            "cat abd cat",
            "-carts +cat -long +abd +cat",
        ),
        (
            "cart q abd lunger lunger abd ab ab",
            "cart q lunger lunger abd ab ab",
            "=cart =q -abd =lunger =lunger =abd =ab =ab",
        ),
        (
            "xyz xyz ab xyw xyz xyw lunger",
            "xyz xyz xyw xyz xyw xyw lunger",
            "=xyz =xyz -ab =xyw =xyz =xyw +xyw =lunger",
        ),
    ];
    for (prev, curr, steps) in cases {
        assert_eq!(
            differ_compare(&words(prev), &words(curr)),
            expected(steps),
            "{prev:?} -> {curr:?}"
        );
    }
}
