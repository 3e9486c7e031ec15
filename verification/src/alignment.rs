//! What the two distances do not depend on: the order of the two strings,
//! the direction in which both are read, and the strand on which both are
//! read.
//!
//! The corpus stores every sequence backwards, and a solution may speak of
//! the companions of the sequences that were compared. These facts carry an
//! error count from the stored parts over to the parts as they are read.

use vstd::prelude::*;
use crate::structs::run_config::{complement_of, complement_seq};
use crate::verification::{hamming_spec, levenshtein_spec, min3, spec_distance};

verus! {

/// The cost of pairing two symbols: 1 where they differ.
pub open spec fn pair_cost(x: u8, y: u8) -> int {
    if x != y {
        1
    } else {
        0
    }
}

/// The Hamming distance does not depend on the order of the two strings.
pub proof fn lemma_hamming_symmetric(a: Seq<u8>, b: Seq<u8>)
    ensures
        hamming_spec(a, b) == hamming_spec(b, a),
    decreases a.len(),
{
    if a.len() > 0 && b.len() > 0 {
        lemma_hamming_symmetric(a.drop_last(), b.drop_last());
    }
}

/// The Levenshtein distance does not depend on the order of the two
/// strings.
pub proof fn lemma_levenshtein_symmetric(a: Seq<u8>, b: Seq<u8>)
    ensures
        levenshtein_spec(a, b) == levenshtein_spec(b, a),
    decreases a.len() + b.len(),
{
    if a.len() > 0 && b.len() > 0 {
        lemma_levenshtein_symmetric(a.drop_last(), b);
        lemma_levenshtein_symmetric(a, b.drop_last());
        lemma_levenshtein_symmetric(a.drop_last(), b.drop_last());
    }
}

/// The Hamming distance of two strings of equal length can be counted from
/// the front as well: the cost of the first pair plus the distance of the
/// rests.
pub proof fn lemma_hamming_from_the_front(a: Seq<u8>, b: Seq<u8>)
    requires
        a.len() == b.len(),
        a.len() >= 1,
    ensures
        hamming_spec(a, b) == pair_cost(a[0], b[0]) + hamming_spec(a.drop_first(), b.drop_first()),
    decreases a.len(),
{
    if a.len() == 1 {
        assert(a.drop_last().len() == 0);
        assert(a.drop_first().len() == 0);
        assert(a.last() == a[0] && b.last() == b[0]);
        assert(a.drop_last() =~= a.drop_first());
        assert(b.drop_last() =~= b.drop_first());
    } else {
        lemma_hamming_from_the_front(a.drop_last(), b.drop_last());
        assert(a.drop_last().drop_first() =~= a.drop_first().drop_last());
        assert(b.drop_last().drop_first() =~= b.drop_first().drop_last());
        assert(a.drop_first().last() == a.last());
        assert(b.drop_first().last() == b.last());
        assert(a.drop_last()[0] == a[0] && b.drop_last()[0] == b[0]);
    }
}

/// Read backwards, two strings of equal length have the same Hamming
/// distance.
pub proof fn lemma_hamming_reversed(a: Seq<u8>, b: Seq<u8>)
    requires
        a.len() == b.len(),
    ensures
        hamming_spec(a.reverse(), b.reverse()) == hamming_spec(a, b),
    decreases a.len(),
{
    if a.len() > 0 {
        lemma_hamming_from_the_front(a, b);
        lemma_hamming_reversed(a.drop_first(), b.drop_first());
        assert(a.reverse().drop_last() =~= a.drop_first().reverse());
        assert(b.reverse().drop_last() =~= b.drop_first().reverse());
        assert(a.reverse().last() == a[0]);
        assert(b.reverse().last() == b[0]);
    }
}

/// The Levenshtein distance can be computed from the front as well: delete
/// the first symbol of one string, or of the other, or pair the two.
pub proof fn lemma_levenshtein_from_the_front(a: Seq<u8>, b: Seq<u8>)
    requires
        a.len() >= 1,
        b.len() >= 1,
    ensures
        levenshtein_spec(a, b) == min3(
            levenshtein_spec(a.drop_first(), b) + 1,
            levenshtein_spec(a, b.drop_first()) + 1,
            levenshtein_spec(a.drop_first(), b.drop_first()) + pair_cost(a[0], b[0]),
        ),
    decreases a.len() + b.len(),
{
    let a_front = a.drop_last();
    let b_front = b.drop_last();
    let a_rest = a.drop_first();
    let b_rest = b.drop_first();
    if a.len() == 1 && b.len() == 1 {
        assert(a_front.len() == 0 && b_front.len() == 0);
        assert(a_rest.len() == 0 && b_rest.len() == 0);
        assert(a.last() == a[0] && b.last() == b[0]);
        assert(a_front =~= a_rest);
        assert(b_front =~= b_rest);
    } else if a.len() == 1 {
        assert(a_front.len() == 0 && a_rest.len() == 0);
        assert(a_front =~= a_rest);
        lemma_levenshtein_from_the_front(a, b_front);
        assert(b_front.drop_first() =~= b_rest.drop_last());
        assert(b_rest.last() == b.last());
        assert(b_front[0] == b[0]);
        assert(a.last() == a[0]);
        assert(b_front.len() == b.len() - 1);
        assert(b_rest.len() == b.len() - 1);
        assert(b_rest.drop_last().len() == b.len() - 2);
    } else if b.len() == 1 {
        assert(b_front.len() == 0 && b_rest.len() == 0);
        assert(b_front =~= b_rest);
        lemma_levenshtein_from_the_front(a_front, b);
        assert(a_front.drop_first() =~= a_rest.drop_last());
        assert(a_rest.last() == a.last());
        assert(a_front[0] == a[0]);
        assert(b.last() == b[0]);
        assert(a_front.len() == a.len() - 1);
        assert(a_rest.len() == a.len() - 1);
        assert(a_rest.drop_last().len() == a.len() - 2);
    } else {
        lemma_levenshtein_from_the_front(a_front, b);
        lemma_levenshtein_from_the_front(a, b_front);
        lemma_levenshtein_from_the_front(a_front, b_front);
        assert(a_front.drop_first() =~= a_rest.drop_last());
        assert(b_front.drop_first() =~= b_rest.drop_last());
        assert(a_rest.last() == a.last());
        assert(b_rest.last() == b.last());
        assert(a_front[0] == a[0]);
        assert(b_front[0] == b[0]);
        let a_mid = a_rest.drop_last();
        let b_mid = b_rest.drop_last();
        assert(levenshtein_spec(a_rest, b) == min3(
            levenshtein_spec(a_mid, b) + 1,
            levenshtein_spec(a_rest, b_front) + 1,
            levenshtein_spec(a_mid, b_front) + pair_cost(a.last(), b.last()),
        ));
        assert(levenshtein_spec(a, b_rest) == min3(
            levenshtein_spec(a_front, b_rest) + 1,
            levenshtein_spec(a, b_mid) + 1,
            levenshtein_spec(a_front, b_mid) + pair_cost(a.last(), b.last()),
        ));
        assert(levenshtein_spec(a_rest, b_rest) == min3(
            levenshtein_spec(a_mid, b_rest) + 1,
            levenshtein_spec(a_rest, b_mid) + 1,
            levenshtein_spec(a_mid, b_mid) + pair_cost(a.last(), b.last()),
        ));
        assert(levenshtein_spec(a_front, b) == min3(
            levenshtein_spec(a_mid, b) + 1,
            levenshtein_spec(a_front, b_rest) + 1,
            levenshtein_spec(a_mid, b_rest) + pair_cost(a[0], b[0]),
        ));
        assert(levenshtein_spec(a, b_front) == min3(
            levenshtein_spec(a_rest, b_front) + 1,
            levenshtein_spec(a, b_mid) + 1,
            levenshtein_spec(a_rest, b_mid) + pair_cost(a[0], b[0]),
        ));
        assert(levenshtein_spec(a_front, b_front) == min3(
            levenshtein_spec(a_mid, b_front) + 1,
            levenshtein_spec(a_front, b_mid) + 1,
            levenshtein_spec(a_mid, b_mid) + pair_cost(a[0], b[0]),
        ));
        assert(levenshtein_spec(a, b) == min3(
            levenshtein_spec(a_front, b) + 1,
            levenshtein_spec(a, b_front) + 1,
            levenshtein_spec(a_front, b_front) + pair_cost(a.last(), b.last()),
        ));
    }
}

/// Read backwards, two strings have the same Levenshtein distance.
pub proof fn lemma_levenshtein_reversed(a: Seq<u8>, b: Seq<u8>)
    ensures
        levenshtein_spec(a.reverse(), b.reverse()) == levenshtein_spec(a, b),
    decreases a.len() + b.len(),
{
    if a.len() == 0 || b.len() == 0 {
        assert(a.reverse().len() == a.len());
        assert(b.reverse().len() == b.len());
    } else {
        lemma_levenshtein_from_the_front(a, b);
        lemma_levenshtein_reversed(a.drop_first(), b);
        lemma_levenshtein_reversed(a, b.drop_first());
        lemma_levenshtein_reversed(a.drop_first(), b.drop_first());
        assert(a.reverse().drop_last() =~= a.drop_first().reverse());
        assert(b.reverse().drop_last() =~= b.drop_first().reverse());
        assert(a.reverse().last() == a[0]);
        assert(b.reverse().last() == b[0]);
    }
}

/// Complementing is one-to-one: two symbols differ exactly when their
/// complements do.
pub proof fn lemma_complement_one_to_one(x: u8, y: u8)
    ensures
        complement_of(complement_of(x)) == x,
        (complement_of(x) == complement_of(y)) == (x == y),
{
}

/// Complemented, two strings have the same distance, under both distances.
pub proof fn lemma_distance_complemented(a: Seq<u8>, b: Seq<u8>)
    ensures
        hamming_spec(complement_seq(a), complement_seq(b)) == hamming_spec(a, b),
        levenshtein_spec(complement_seq(a), complement_seq(b)) == levenshtein_spec(a, b),
    decreases a.len() + b.len(),
{
    let ca = complement_seq(a);
    let cb = complement_seq(b);
    if a.len() > 0 {
        assert(ca.drop_last() =~= complement_seq(a.drop_last()));
        assert(ca.last() == complement_of(a.last()));
    }
    if b.len() > 0 {
        assert(cb.drop_last() =~= complement_seq(b.drop_last()));
        assert(cb.last() == complement_of(b.last()));
    }
    if a.len() > 0 && b.len() > 0 {
        lemma_complement_one_to_one(a.last(), b.last());
        lemma_distance_complemented(a.drop_last(), b.drop_last());
        lemma_distance_complemented(a.drop_last(), b);
        lemma_distance_complemented(a, b.drop_last());
    }
}

/// The distance that a configuration measures by depends neither on the
/// order of the two parts, nor on whether both are read backwards, nor on
/// whether both are complemented.
pub proof fn lemma_distance_carries_over(a: Seq<u8>, b: Seq<u8>, edit_distance: bool)
    requires
        !edit_distance ==> a.len() == b.len(),
    ensures
        spec_distance(b, a, edit_distance) == spec_distance(a, b, edit_distance),
        spec_distance(a.reverse(), b.reverse(), edit_distance) == spec_distance(
            a,
            b,
            edit_distance,
        ),
        spec_distance(complement_seq(a), complement_seq(b), edit_distance) == spec_distance(
            a,
            b,
            edit_distance,
        ),
{
    lemma_hamming_symmetric(a, b);
    lemma_levenshtein_symmetric(a, b);
    if !edit_distance {
        lemma_hamming_reversed(a, b);
    }
    lemma_levenshtein_reversed(a, b);
    lemma_distance_complemented(a, b);
}

} // verus!
