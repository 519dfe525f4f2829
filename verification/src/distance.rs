//! Fuzzy word comparison by Damerau-Levenshtein edit distance.
//!
//! The distance itself is computed by an outside crate; its value on a
//! pair of ASCII byte strings is given a name, `dl_dist`, that the
//! recognizer contracts speak of.

use vstd::prelude::*;

verus! {

/// Whether every byte of `s` is ASCII.
pub open spec fn ascii_seq(s: Seq<u8>) -> bool {
    forall|k: int| 0 <= k < s.len() ==> s[k] < 128
}

/// The Damerau-Levenshtein edit distance between two ASCII byte strings:
/// the least number of single-character insertions, deletions,
/// substitutions and adjacent transpositions turning one into the other.
/// It depends on the two byte strings alone.
pub uninterp spec fn dl_dist(a: Seq<u8>, b: Seq<u8>) -> usize;

/// Relies on strsim::damerau_levenshtein: the edit distance counting
/// insertions, deletions, substitutions and adjacent transpositions,
/// a pure function of the two strings. Both arguments are ASCII, so the
/// characters the outside crate compares are exactly the bytes.
#[verifier::external_body]
pub fn damerau_levenshtein(a: &[u8], b: &[u8]) -> (r: usize)
    requires
        ascii_seq(a@),
        ascii_seq(b@),
    ensures
        r == dl_dist(a@, b@),
{
    strsim::damerau_levenshtein(
        core::str::from_utf8(a).unwrap_or(""),
        core::str::from_utf8(b).unwrap_or(""),
    )
}

} // verus!
