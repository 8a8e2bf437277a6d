//! Edit (Levenshtein) distance between byte sequences.

use vstd::prelude::*;

verus! {

/// The smaller of three naturals.
pub open spec fn min3(a: nat, b: nat, c: nat) -> nat {
    if a <= b && a <= c {
        a
    } else if b <= c {
        b
    } else {
        c
    }
}

/// The Levenshtein distance: the least number of single-byte insertions,
/// deletions and substitutions that turn `a` into `b`.
pub open spec fn edit_distance(a: Seq<u8>, b: Seq<u8>) -> nat
    decreases a.len() + b.len(),
{
    if a.len() == 0 {
        b.len()
    } else if b.len() == 0 {
        a.len()
    } else {
        let keep = if a.last() == b.last() { 0nat } else { 1nat };
        min3(
            edit_distance(a.drop_last(), b.drop_last()) + keep,
            edit_distance(a.drop_last(), b) + 1,
            edit_distance(a, b.drop_last()) + 1,
        )
    }
}

/// Longest sequence that the distance routine is asked about; its search
/// doubles a `u32` bound, which stays finite below this length.
pub const MAX_SEQ_LEN: usize = 0x1000_0000;

/// Relies on triple_accel::levenshtein::levenshtein_exp, which returns the
/// Levenshtein distance of its two byte slices.
#[verifier::external_body]
fn levenshtein(a: &[u8], b: &[u8]) -> (r: u32)
    requires
        a@.len() <= MAX_SEQ_LEN,
        b@.len() <= MAX_SEQ_LEN,
    ensures
        r as nat == edit_distance(a@, b@),
{
    triple_accel::levenshtein::levenshtein_exp(a, b)
}

/// The metric of the approximate-match index: the edit distance of two
/// barcodes.
pub fn dist(a: &Vec<u8>, b: &Vec<u8>) -> (r: isize)
    requires
        a@.len() <= MAX_SEQ_LEN,
        b@.len() <= MAX_SEQ_LEN,
    ensures
        r as int == edit_distance(a@, b@),
{
    let d = levenshtein(a.as_slice(), b.as_slice());
    proof {
        lemma_edit_distance_bound(a@, b@);
    }
    d as isize
}

/// The edit distance never exceeds the longer length.
pub proof fn lemma_edit_distance_bound(a: Seq<u8>, b: Seq<u8>)
    ensures
        edit_distance(a, b) <= if a.len() >= b.len() { a.len() } else { b.len() },
    decreases a.len() + b.len(),
{
    if a.len() > 0 && b.len() > 0 {
        lemma_edit_distance_bound(a.drop_last(), b.drop_last());
    }
}

} // verus!
