//! Sequence-id parity helpers.
//!
//! When reverse complements are searched as well, every input sequence is
//! stored twice under adjacent ids: the even id holds the forward reading, the
//! odd id the reverse complement.

use vstd::prelude::*;

verus! {

/// How the second sequence of a solution lies relative to the first.
///
/// `Normal`: both sequences are read forwards. `Reversed`: the first is read
/// forwards and the second as its reverse complement.
#[derive(Hash, PartialEq, Eq, Structural, Debug, PartialOrd, Ord, Clone, Copy)]
pub enum Orientation {
    Normal,
    Reversed,
}

impl Orientation {
    /// The one-letter code written to the output table: `N` or `I`.
    pub open spec fn spec_letter(self) -> char {
        match self {
            Orientation::Normal => 'N',
            Orientation::Reversed => 'I',
        }
    }

    /// The one-letter code written to the output table: `N` or `I`.
    pub fn letter(&self) -> (c: char)
        ensures
            c == self.spec_letter(),
    {
        match self {
            Orientation::Normal => 'N',
            Orientation::Reversed => 'I',
        }
    }
}

/// Whether `id` is odd, that is, names a reverse-complement entry.
pub open spec fn is_reversed_id(id: int) -> bool {
    id % 2 == 1
}

/// The id that shares its input sequence with `id` and reads the other way.
pub open spec fn companion_of(id: int) -> int {
    if is_reversed_id(id) {
        id - 1
    } else {
        id + 1
    }
}

/// The orientation of `id_b` as seen from `id_a`.
pub open spec fn orientation_of(id_a: int, id_b: int, reversals: bool) -> Orientation {
    if reversals && (id_a + id_b) % 2 == 1 {
        Orientation::Reversed
    } else {
        Orientation::Normal
    }
}

/// Whether `id` names a reverse-complement entry (an odd id).
#[inline]
pub fn for_reversed_string(id: usize) -> (r: bool)
    ensures
        r == is_reversed_id(id as int),
{
    id % 2 == 1
}

/// The companion of `id`: the entry for the same input sequence read in the
/// opposite direction. Only meaningful while reversals are enabled.
#[inline]
pub fn companion_id(id: usize, reversals: bool) -> (r: usize)
    requires
        reversals,
        is_reversed_id(id as int) || id < usize::MAX,
    ensures
        r as int == companion_of(id as int),
{
    if for_reversed_string(id) {
        id - 1
    } else {
        id + 1
    }
}

/// `Reversed` when reversals are enabled and exactly one of the two ids is
/// odd, `Normal` otherwise.
pub fn relative_orientation(id_a: usize, id_b: usize, reversals: bool) -> (r: Orientation)
    ensures
        r == orientation_of(id_a as int, id_b as int, reversals),
{
    if reversals && (id_a % 2) + (id_b % 2) == 1 {
        Orientation::Reversed
    } else {
        Orientation::Normal
    }
}

/// Taking the companion twice gives the id back, and the companion always has
/// the opposite parity.
pub proof fn lemma_companion_involution(id: int)
    requires
        id >= 0,
    ensures
        companion_of(id) >= 0,
        companion_of(companion_of(id)) == id,
        is_reversed_id(companion_of(id)) != is_reversed_id(id),
{
}

} // verus!
