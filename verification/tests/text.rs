use wikiwho::matcher::{OpTag, SequenceMatcher};
use wikiwho::text::{
    concat3, concat_text, decimal_text, decimal_wide, join_text, parse_u64, split_text, trim_text,
};
use wikiwho::tokenize::{split_sentences, split_tokens};

fn chars(s: &str) -> Vec<char> {
    s.chars().collect()
}

#[test]
fn numbers_are_read_as_they_are_written() {
    for n in [0u64, 1, 9, 10, 99, 100, 12345, u64::MAX] {
        assert_eq!(decimal_text(n), n.to_string());
        assert_eq!(parse_u64(&decimal_text(n)), Some(n));
    }
    assert_eq!(decimal_wide(u128::MAX), u128::MAX.to_string());
    assert_eq!(parse_u64("+7"), "+7".parse::<u64>().ok());
    for bad in ["", "-1", "1x", "18446744073709551616", " 1", "+"] {
        assert_eq!(parse_u64(bad), None, "{bad:?}");
    }
}

#[test]
fn splitting_undoes_joining() {
    let parts: Vec<String> = vec!["a".into(), "".into(), "bc".into()];
    let joined = join_text(&parts, " ");
    assert_eq!(joined, "a  bc");
    assert_eq!(split_text(&chars(&joined), " "), parts);
}

#[test]
fn whitespace_is_trimmed() {
    assert_eq!(trim_text("\u{a0}\t x y \u{3000}\r\n"), "x y");
    assert_eq!(trim_text(" \u{2003}"), "");
    assert_eq!(trim_text("\u{200b}x"), "\u{200b}x");
    assert_eq!(concat_text("a", "b"), "ab");
    assert_eq!(concat3("a", "b", "c"), "abc");
}

#[test]
fn sentences_read_back_as_their_tokens() {
    for text in ["Hello, world!", "[[a|b]] {{c}}", "x", "中 文", "||", "ææææ"] {
        let tokens = split_tokens(text);
        assert!(!tokens.is_empty(), "{text:?}");
        assert!(tokens
            .iter()
            .all(|t| !t.is_empty() && !t.contains(' ') && !t.contains('\n')));
        let filed = join_text(&tokens, " ");
        assert_eq!(split_text(&chars(&filed), " "), tokens, "{text:?}");
    }
}

#[test]
fn sentences_end_after_words() {
    assert_eq!(
        split_sentences("One sentence. Two sentences."),
        vec!["One sentence.", "Two sentences."]
    );
}

#[test]
fn opcodes_lead_from_one_text_to_the_other() {
    let (a, b) = (chars("private volatile"), chars("private thread volatile"));
    let mut sm = SequenceMatcher::new(true);
    sm.set_seqs(a.clone(), b.clone());
    let mut rebuilt = Vec::new();
    let (mut i, mut j) = (0, 0);
    for op in sm.get_opcodes() {
        assert_eq!((op.i1, op.j1), (i, j));
        match op.tag {
            OpTag::Equal => {
                assert_eq!(a[op.i1..op.i2], b[op.j1..op.j2]);
                rebuilt.extend_from_slice(&a[op.i1..op.i2]);
            }
            OpTag::Replace | OpTag::Insert => rebuilt.extend_from_slice(&b[op.j1..op.j2]),
            OpTag::Delete => {}
        }
        (i, j) = (op.i2, op.j2);
    }
    assert_eq!((i, j), (a.len(), b.len()));
    assert_eq!(rebuilt, b);
}

#[test]
fn quick_ratios_are_bounds() {
    for (a, b) in [("abcd", "bcde"), ("aab", "aba"), ("", "x"), ("abc", "abc")] {
        let mut sm = SequenceMatcher::new(true);
        sm.set_seqs(chars(a), chars(b));
        let (r, q, f) = (sm.ratio(), sm.quick_ratio(), sm.real_quick_ratio());
        assert!(r.num * q.den <= q.num * r.den);
        assert!(q.num * f.den <= f.num * q.den);
        assert!(f.num <= f.den);
    }
}

#[test]
fn nothing_is_wholly_similar_to_nothing() {
    let mut sm = SequenceMatcher::<char>::new(true);
    sm.set_seqs(vec![], vec![]);
    let r = sm.ratio();
    assert_eq!(r.num, r.den);
}
