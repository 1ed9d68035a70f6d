//! Vandalism detection by content hash and by loss of length.
use vstd::hash_set::StringHashSet;
use vstd::prelude::*;

verus! {

/// A revision is taken for vandalism when it loses at least this many fifths of
/// the previous length.
pub const SHRINK_FIFTHS: u128 = 2;

/// The previous revision must be longer than this, in characters.
pub const PREVIOUS_LENGTH: usize = 1000;

/// The current revision must be shorter than this, in characters.
pub const CURR_LENGTH: usize = 1000;

/// A token that recurs on average more often than this marks copied text.
pub const TOKEN_DENSITY_LIMIT: u128 = 20;

/// Whether the hash is among those of revisions already taken for vandalism.
pub fn hash_matches_known_spam(rev_hash: &str, spam_hashes: &StringHashSet) -> (r: bool)
    ensures
        r == spam_hashes@.contains(rev_hash@),
{
    spam_hashes.contains(rev_hash)
}

/// Whether a long text became short, by two fifths of its length or more, in an
/// edit that is not both commented and minor.
pub open spec fn is_shrink(prev_length: int, curr_length: int, comment: bool, minor: bool) -> bool {
    &&& !(comment && minor)
    &&& prev_length > PREVIOUS_LENGTH
    &&& curr_length < CURR_LENGTH
    &&& 5 * (prev_length - curr_length) >= SHRINK_FIFTHS * prev_length
}

/// Whether the loss of length marks the revision as vandalism. `comment` tells
/// whether the edit has a summary, `minor` whether it was marked as minor: both
/// together mark a move of content in good faith.
pub fn length_shrink_is_vandalism(
    prev_length: usize,
    curr_length: usize,
    comment: bool,
    minor: bool,
) -> (r: bool)
    ensures
        r == is_shrink(prev_length as int, curr_length as int, comment, minor),
{
    if comment && minor {
        return false;
    }
    if prev_length <= PREVIOUS_LENGTH {
        return false;
    }
    if curr_length >= CURR_LENGTH {
        return false;
    }
    let lost: u128 = (prev_length - curr_length) as u128;
    5 * lost >= SHRINK_FIFTHS * (prev_length as u128)
}

/// Losing more text never makes an edit less suspect: what is vandalism by loss of
/// length at one length is so at every shorter one, down to none, and also where the
/// page was longer before.
pub proof fn losing_more_is_no_safer(
    prev_length: int,
    curr_length: int,
    shorter: int,
    longer: int,
    comment: bool,
    minor: bool,
)
    requires
        0 <= shorter <= curr_length,
        prev_length <= longer,
        is_shrink(prev_length, curr_length, comment, minor),
    ensures
        is_shrink(prev_length, shorter, comment, minor),
        is_shrink(longer, curr_length, comment, minor),
        is_shrink(longer, shorter, comment, minor),
{
}

/// A page of more than 1000 characters that is left with fewer than 1000, and with no
/// more than three fifths of what it had, was vandalised, unless the edit is both
/// commented and minor; no other edit is vandalism by loss of length. One of the two
/// marks alone makes no difference.
pub proof fn shrinking_has_one_limit(prev_length: int, curr_length: int, comment: bool, minor: bool)
    requires
        0 <= prev_length,
        0 <= curr_length,
    ensures
        comment && minor ==> !is_shrink(prev_length, curr_length, comment, minor),
        !(comment && minor) ==> is_shrink(prev_length, curr_length, comment, minor) == is_shrink(
            prev_length,
            curr_length,
            false,
            false,
        ),
        prev_length <= 1000 ==> !is_shrink(prev_length, curr_length, comment, minor),
        curr_length >= 1000 ==> !is_shrink(prev_length, curr_length, comment, minor),
        5 * curr_length > 3 * prev_length ==> !is_shrink(prev_length, curr_length, comment, minor),
        !(comment && minor) && prev_length > 1000 && curr_length < 1000 && 5 * curr_length <= 3
            * prev_length ==> is_shrink(prev_length, curr_length, comment, minor),
{
}

/// A page of more than 1000 characters cannot be emptied unless the edit is both
/// commented and minor.
pub proof fn blanking_is_vandalism(prev_length: int, comment: bool, minor: bool)
    requires
        prev_length > 1000,
    ensures
        is_shrink(prev_length, 0, comment, minor) <==> !(comment && minor),
{
}

} // verus!
