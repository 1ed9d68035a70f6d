use wikiwho::diff::{intern_sequences, myers_diff, DiffOp};

fn keeps(values: &[u32]) -> Vec<DiffOp> {
    values.iter().map(|&v| DiffOp::Keep(v)).collect()
}

#[test]
fn empty_inputs_yield_empty_transcript() {
    assert_eq!(myers_diff(&[], &[]), Vec::<DiffOp>::new());
}

#[test]
fn diff_empty_prev_yields_all_inserts() {
    assert_eq!(
        myers_diff(&[], &[1, 2, 3]),
        vec![DiffOp::Insert(1), DiffOp::Insert(2), DiffOp::Insert(3)]
    );
}

#[test]
fn diff_empty_curr_yields_all_deletes() {
    assert_eq!(
        myers_diff(&[1, 2, 3], &[]),
        vec![DiffOp::Delete(1), DiffOp::Delete(2), DiffOp::Delete(3)]
    );
}

#[test]
fn identical_sequences_yield_all_keeps() {
    assert_eq!(myers_diff(&[1, 2, 3], &[1, 2, 3]), keeps(&[1, 2, 3]));
}

#[test]
fn single_substitution_in_middle() {
    let ops = myers_diff(&[1, 2, 3], &[1, 4, 3]);
    assert_eq!(
        ops,
        vec![
            DiffOp::Keep(1),
            DiffOp::Delete(2),
            DiffOp::Insert(4),
            DiffOp::Keep(3),
        ]
    );
}

#[test]
fn diff_pure_insertion_in_middle() {
    let ops = myers_diff(&[1, 3], &[1, 2, 3]);
    assert_eq!(
        ops,
        vec![DiffOp::Keep(1), DiffOp::Insert(2), DiffOp::Keep(3)]
    );
}

#[test]
fn diff_pure_deletion_in_middle() {
    let ops = myers_diff(&[1, 2, 3], &[1, 3]);
    assert_eq!(
        ops,
        vec![DiffOp::Keep(1), DiffOp::Delete(2), DiffOp::Keep(3)]
    );
}

#[test]
fn fully_disjoint_sequences() {
    let ops = myers_diff(&[1, 2], &[3, 4]);
    assert_eq!(ops.iter().filter(|op| matches!(op, DiffOp::Keep(_))).count(), 0);
    assert_eq!(ops.len(), 4);
    let dels = ops.iter().filter(|op| matches!(op, DiffOp::Delete(_))).count();
    let ins = ops.iter().filter(|op| matches!(op, DiffOp::Insert(_))).count();
    assert_eq!(dels, 2);
    assert_eq!(ins, 2);
}

#[test]
fn duplicate_tokens_are_matched_in_order() {
    let ops = myers_diff(&[1, 2, 1], &[1, 1]);
    let reconstructed: Vec<u32> = ops
        .iter()
        .filter_map(|op| match op {
            DiffOp::Keep(v) | DiffOp::Insert(v) => Some(*v),
            DiffOp::Delete(_) => None,
        })
        .collect();
    assert_eq!(reconstructed, vec![1, 1]);
}

#[test]
fn transcript_applies_to_yield_curr() {
    let cases: &[(&[u32], &[u32])] = &[
        (&[], &[1, 2]),
        (&[1, 2], &[]),
        (&[1, 2, 3, 4, 5], &[1, 2, 3, 4, 5]),
        (&[1, 2, 3], &[3, 2, 1]),
        (&[10, 20, 30, 40], &[20, 30, 50]),
        (&[1, 2, 1, 2, 1], &[2, 1, 2, 1, 2]),
    ];
    for (a, b) in cases {
        let ops = myers_diff(a, b);
        let curr: Vec<u32> = ops
            .iter()
            .filter_map(|op| match op {
                DiffOp::Keep(v) | DiffOp::Insert(v) => Some(*v),
                DiffOp::Delete(_) => None,
            })
            .collect();
        let prev: Vec<u32> = ops
            .iter()
            .filter_map(|op| match op {
                DiffOp::Keep(v) | DiffOp::Delete(v) => Some(*v),
                DiffOp::Insert(_) => None,
            })
            .collect();
        assert_eq!(curr, b.to_vec(), "applying transcript should yield b; case {a:?} -> {b:?}");
        assert_eq!(prev, a.to_vec(), "reverse-applying transcript should yield a; case {a:?} -> {b:?}");
    }
}

#[test]
fn diff_is_minimal_edit_distance() {
    let ops = myers_diff(&[1, 2, 3], &[1, 4, 3]);
    let keeps = ops.iter().filter(|op| matches!(op, DiffOp::Keep(_))).count();
    let edits = ops.len() - keeps;
    assert_eq!(edits, 2, "{ops:?}");
}

#[test]
fn intern_assigns_shared_ids_across_sequences() {
    let a = vec!["foo".to_string(), "bar".to_string(), "baz".to_string()];
    let b = vec!["bar".to_string(), "qux".to_string()];
    let (ia, ib, values) = intern_sequences(&a, &b);
    assert_eq!(values.len(), 4);
    assert_eq!(ia[1], ib[0]);
    assert_ne!(ia[0], ia[1]);
    assert_ne!(ib[0], ib[1]);
}

#[test]
fn intern_then_diff_round_trips_through_strings() {
    let a: Vec<String> = ["hello", "world", "foo"].iter().map(|s| s.to_string()).collect();
    let b: Vec<String> = ["hello", "bar", "foo"].iter().map(|s| s.to_string()).collect();
    let (ia, ib, values) = intern_sequences(&a, &b);
    let ops = myers_diff(&ia, &ib);

    let as_strings: Vec<(&str, &str)> = ops
        .iter()
        .map(|op| match op {
            DiffOp::Keep(v) => ("keep", values[*v as usize].as_str()),
            DiffOp::Delete(v) => ("delete", values[*v as usize].as_str()),
            DiffOp::Insert(v) => ("insert", values[*v as usize].as_str()),
        })
        .collect();
    assert_eq!(
        as_strings,
        vec![
            ("keep", "hello"),
            ("delete", "world"),
            ("insert", "bar"),
            ("keep", "foo"),
        ]
    );
}

#[test]
fn long_sequence_with_small_edit_distance() {
    let a: Vec<u32> = (0..200).collect();
    let mut b = a.clone();
    b[50] = 999;
    b[150] = 1000;
    let ops = myers_diff(&a, &b);
    let keeps = ops.iter().filter(|op| matches!(op, DiffOp::Keep(_))).count();
    assert_eq!(keeps, 198);
    let reconstructed: Vec<u32> = ops
        .iter()
        .filter_map(|op| match op {
            DiffOp::Keep(v) | DiffOp::Insert(v) => Some(*v),
            DiffOp::Delete(_) => None,
        })
        .collect();
    assert_eq!(reconstructed, b);
    let reconstructed_a: Vec<u32> = ops
        .iter()
        .filter_map(|op| match op {
            DiffOp::Keep(v) | DiffOp::Delete(v) => Some(*v),
            DiffOp::Insert(_) => None,
        })
        .collect();
    a.iter().zip(reconstructed_a.iter()).for_each(|(x, y)| assert_eq!(x, y));
}

#[test]
fn repeated_texts_share_their_number() {
    let list = |v: &[&str]| v.iter().map(|s| s.to_string()).collect::<Vec<String>>();
    let (ia, ib, values) = intern_sequences(&list(&["b", "a", "b"]), &list(&["a", "c", "c", "b"]));
    assert_eq!(ia, vec![0, 1, 0]);
    assert_eq!(ib, vec![1, 2, 2, 0]);
    assert_eq!(values, list(&["b", "a", "c"]));
}
