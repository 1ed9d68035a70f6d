use wikiwho::spam::{hash_matches_known_spam, length_shrink_is_vandalism};
use wikiwho::text::StringHashSet;

#[test]
fn hash_match_membership() {
    let mut spam: StringHashSet = StringHashSet::new();
    spam.insert("abc123".into());
    assert!(hash_matches_known_spam("abc123", &spam));
    assert!(!hash_matches_known_spam("def456", &spam));
}

#[test]
fn length_shrink_obama_to_nothing_is_vandalism() {
    assert!(length_shrink_is_vandalism(500_000, 100, false, false));
}

#[test]
fn length_shrink_good_faith_move_is_not_vandalism() {
    assert!(!length_shrink_is_vandalism(500_000, 100, true, true));
}

#[test]
fn length_shrink_below_previous_threshold_does_not_fire() {
    assert!(!length_shrink_is_vandalism(500, 50, false, false));
    assert!(!length_shrink_is_vandalism(1000, 50, false, false));
}

#[test]
fn length_shrink_curr_above_threshold_does_not_fire() {
    assert!(!length_shrink_is_vandalism(10_000, 5_000, false, false));
    assert!(!length_shrink_is_vandalism(10_000, 1000, false, false));
}

#[test]
fn length_shrink_ratio_at_threshold() {
    assert!(length_shrink_is_vandalism(1500, 900, false, false));
}

#[test]
fn length_shrink_modest_shrink_does_not_fire() {
    assert!(!length_shrink_is_vandalism(1500, 950, false, false));
}

#[test]
fn length_shrink_growth_does_not_fire() {
    assert!(!length_shrink_is_vandalism(10_000, 12_000, false, false));
}

#[test]
fn length_shrink_zero_prev_does_not_panic() {
    assert!(!length_shrink_is_vandalism(0, 100, false, false));
    assert!(!length_shrink_is_vandalism(0, 0, false, false));
}

#[test]
fn comment_alone_does_not_escape() {
    assert!(length_shrink_is_vandalism(10_000, 100, true, false));
}

#[test]
fn minor_alone_does_not_escape() {
    assert!(length_shrink_is_vandalism(10_000, 100, false, true));
}
