//! Candidate verification: the exact check, and the translation of what
//! passes into solutions.
//!
//! The search proposes candidates in the coordinates of the corpus text,
//! seen from the query sequence. A solution speaks of the sequences as they
//! are read, names the sequence with the smaller id first and, where reverse
//! complements are searched, names a forward sequence first.

use vstd::prelude::*;
use vstd::slice::slice_subrange;
use crate::alignment::lemma_distance_carries_over;
use crate::rate::lemma_rate_floor_bounds;
use crate::structs::run_config::{complement_of, complement_seq, Config, Maps, READ_ERR};
use crate::structs::solutions::{Candidate, CandidateSet, Solution, SolutionSet};
use crate::useful::{
    companion_of,
    for_reversed_string,
    is_reversed_id,
    orientation_of,
    relative_orientation,
    Orientation,
};

verus! {

/// The number of positions at which two strings of equal length differ.
pub open spec fn hamming_spec(a: Seq<u8>, b: Seq<u8>) -> int
    decreases a.len(),
{
    if a.len() == 0 || b.len() == 0 {
        0
    } else {
        hamming_spec(a.drop_last(), b.drop_last()) + if a.last() != b.last() {
            1int
        } else {
            0int
        }
    }
}

/// The least of three numbers.
pub open spec fn min3(x: int, y: int, z: int) -> int {
    if x <= y && x <= z {
        x
    } else if y <= z {
        y
    } else {
        z
    }
}

/// The Levenshtein distance: the least number of symbols to insert, delete
/// or replace to turn one string into the other.
pub open spec fn levenshtein_spec(a: Seq<u8>, b: Seq<u8>) -> int
    decreases a.len() + b.len(),
{
    if a.len() == 0 {
        b.len() as int
    } else if b.len() == 0 {
        a.len() as int
    } else {
        min3(
            levenshtein_spec(a.drop_last(), b) + 1,
            levenshtein_spec(a, b.drop_last()) + 1,
            levenshtein_spec(a.drop_last(), b.drop_last()) + if a.last() != b.last() {
                1int
            } else {
                0int
            },
        )
    }
}

/// The distance that a configuration measures overlaps by.
pub open spec fn spec_distance(a: Seq<u8>, b: Seq<u8>, edit_distance: bool) -> int {
    if edit_distance {
        levenshtein_spec(a, b)
    } else {
        hamming_spec(a, b)
    }
}

/// Trusted: `bio::alignment::distance::hamming`.
///
/// Assumed of it: on two strings of equal length it returns the number of
/// positions at which they differ.
#[verifier::external_body]
fn hamming_distance(alpha: &[u8], beta: &[u8]) -> (r: u64)
    requires
        alpha@.len() == beta@.len(),
    ensures
        r as int == hamming_spec(alpha@, beta@),
{
    bio::alignment::distance::hamming(alpha, beta)
}

/// Trusted: `bio::alignment::distance::levenshtein`.
///
/// Assumed of it: it returns the Levenshtein distance of the two strings.
#[verifier::external_body]
fn levenshtein_distance(alpha: &[u8], beta: &[u8]) -> (r: u32)
    requires
        alpha@.len() <= u32::MAX,
        beta@.len() <= u32::MAX,
    ensures
        r as int == levenshtein_spec(alpha@, beta@),
{
    bio::alignment::distance::levenshtein(alpha, beta)
}

/// The number of errors between two aligned parts: their Levenshtein
/// distance under edit distance, else their Hamming distance, which needs
/// parts of equal length.
pub fn overlap_errors(a_part: &[u8], b_part: &[u8], edit_distance: bool) -> (errors: u32)
    requires
        a_part@.len() <= i32::MAX,
        b_part@.len() <= i32::MAX,
        !edit_distance ==> a_part@.len() == b_part@.len(),
    ensures
        errors as int == spec_distance(a_part@, b_part@, edit_distance),
{
    if edit_distance {
        levenshtein_distance(a_part, b_part)
    } else {
        proof {
            lemma_hamming_bounds(a_part@, b_part@);
        }
        hamming_distance(a_part, b_part) as u32
    }
}

/// The Hamming distance is at most the length.
pub proof fn lemma_hamming_bounds(a: Seq<u8>, b: Seq<u8>)
    ensures
        0 <= hamming_spec(a, b) <= a.len(),
    decreases a.len(),
{
    if a.len() > 0 && b.len() > 0 {
        lemma_hamming_bounds(a.drop_last(), b.drop_last());
    }
}

/// The Levenshtein distance is at most the length of the longer string.
pub proof fn lemma_levenshtein_bounds(a: Seq<u8>, b: Seq<u8>)
    ensures
        0 <= levenshtein_spec(a, b),
        levenshtein_spec(a, b) <= a.len() || levenshtein_spec(a, b) <= b.len(),
    decreases a.len() + b.len(),
{
    if a.len() > 0 && b.len() > 0 {
        lemma_levenshtein_bounds(a.drop_last(), b);
        lemma_levenshtein_bounds(a, b.drop_last());
        lemma_levenshtein_bounds(a.drop_last(), b.drop_last());
    }
}

/// A string has distance 0 from itself, under both distances.
pub proof fn lemma_distance_to_self(s: Seq<u8>)
    ensures
        levenshtein_spec(s, s) == 0,
        hamming_spec(s, s) == 0,
    decreases s.len(),
{
    if s.len() > 0 {
        lemma_distance_to_self(s.drop_last());
        lemma_levenshtein_bounds(s.drop_last(), s);
        lemma_levenshtein_bounds(s, s.drop_last());
    }
}

/// The cost of aligning two symbols in a walk of the search: nothing where
/// they are equal and readable, one error otherwise.
pub open spec fn mismatch(x: u8, y: u8) -> int {
    if x == y && x != READ_ERR {
        0
    } else {
        1
    }
}

/// The least cost of an alignment in which an unreadable symbol matches
/// nothing.
pub open spec fn walk_distance(a: Seq<u8>, b: Seq<u8>) -> int
    decreases a.len() + b.len(),
{
    if a.len() == 0 {
        b.len() as int
    } else if b.len() == 0 {
        a.len() as int
    } else {
        min3(
            walk_distance(a.drop_last(), b) + 1,
            walk_distance(a, b.drop_last()) + 1,
            walk_distance(a.drop_last(), b.drop_last()) + mismatch(a.last(), b.last()),
        )
    }
}

/// The least cost of an alignment that the search can walk: an unreadable
/// symbol matches nothing, and the alignment begins and ends with a pair of
/// aligned symbols. Two empty strings align at no cost; otherwise both
/// strings need a first and a last symbol to pair up, and one symbol cannot
/// serve two pairs.
pub open spec fn anchored_distance(a: Seq<u8>, b: Seq<u8>) -> Option<int> {
    if a.len() == 0 && b.len() == 0 {
        Some(0)
    } else if a.len() == 0 || b.len() == 0 {
        None
    } else if a.len() == 1 && b.len() == 1 {
        Some(mismatch(a[0], b[0]))
    } else if a.len() == 1 || b.len() == 1 {
        None
    } else {
        Some(
            mismatch(a[0], b[0]) + walk_distance(
                a.subrange(1, a.len() - 1),
                b.subrange(1, b.len() - 1),
            ) + mismatch(a.last(), b.last()),
        )
    }
}

/// The walk distance is at most the length of the longer string.
pub proof fn lemma_walk_distance_bounds(a: Seq<u8>, b: Seq<u8>)
    ensures
        0 <= walk_distance(a, b),
        walk_distance(a, b) <= a.len() || walk_distance(a, b) <= b.len(),
    decreases a.len() + b.len(),
{
    if a.len() > 0 && b.len() > 0 {
        lemma_walk_distance_bounds(a.drop_last(), b);
        lemma_walk_distance_bounds(a, b.drop_last());
        lemma_walk_distance_bounds(a.drop_last(), b.drop_last());
    }
}

fn symbol_cost(x: u8, y: u8) -> (r: u32)
    ensures
        r as int == mismatch(x, y),
{
    if x == y && x != READ_ERR {
        0
    } else {
        1
    }
}

/// The walk distance, by the usual table filled row by row; one row is kept.
fn compute_walk_distance(alpha: &[u8], beta: &[u8]) -> (r: u32)
    requires
        alpha@.len() <= i32::MAX,
        beta@.len() <= i32::MAX,
    ensures
        r as int == walk_distance(alpha@, beta@),
{
    let n: usize = alpha.len();
    let m: usize = beta.len();
    let mut row: Vec<u32> = Vec::new();
    let mut j: usize = 0;
    while j <= m
        invariant
            0 <= j <= m + 1,
            m == beta@.len(),
            m <= i32::MAX,
            row@.len() == j,
            forall|t: int| 0 <= t < j ==> #[trigger] row@[t] == t,
        decreases m + 1 - j,
    {
        row.push(j as u32);
        j = j + 1;
    }
    assert forall|t: int| 0 <= t <= m implies #[trigger] row@[t] as int == walk_distance(
        alpha@.take(0),
        beta@.take(t),
    ) by {
        assert(alpha@.take(0).len() == 0);
    }
    let mut i: usize = 0;
    while i < n
        invariant
            0 <= i <= n,
            n == alpha@.len(),
            m == beta@.len(),
            n <= i32::MAX,
            m <= i32::MAX,
            row@.len() == m + 1,
            forall|t: int|
                0 <= t <= m ==> #[trigger] row@[t] as int == walk_distance(
                    alpha@.take(i as int),
                    beta@.take(t),
                ),
        decreases n - i,
    {
        let ghost prev = row@;
        let ghost a_old = alpha@.take(i as int);
        let ghost a_new = alpha@.take(i + 1);
        assert(a_new.drop_last() =~= a_old);
        assert(a_new.last() == alpha@[i as int]);
        let mut diagonal: u32 = row[0];
        row[0] = (i + 1) as u32;
        assert(beta@.take(0).len() == 0);
        let mut t: usize = 1;
        while t <= m
            invariant
                1 <= t <= m + 1,
                0 <= i < n,
                n == alpha@.len(),
                m == beta@.len(),
                n <= i32::MAX,
                m <= i32::MAX,
                row@.len() == m + 1,
                prev.len() == m + 1,
                a_old == alpha@.take(i as int),
                a_new == alpha@.take(i + 1),
                a_new.drop_last() == a_old,
                a_new.last() == alpha@[i as int],
                a_new.len() == i + 1,
                forall|u: int|
                    0 <= u <= m ==> #[trigger] prev[u] as int == walk_distance(a_old, beta@.take(u)),
                forall|u: int| t <= u <= m ==> #[trigger] row@[u] == prev[u],
                forall|u: int|
                    0 <= u < t ==> #[trigger] row@[u] as int == walk_distance(a_new, beta@.take(u)),
                diagonal == prev[t - 1],
            decreases m + 1 - t,
        {
            let ghost b_new = beta@.take(t as int);
            let ghost b_old = beta@.take(t - 1);
            proof {
                assert(b_new.drop_last() =~= b_old);
                assert(b_new.last() == beta@[t - 1]);
                lemma_walk_distance_bounds(a_old, b_new);
                lemma_walk_distance_bounds(a_new, b_old);
                lemma_walk_distance_bounds(a_old, b_old);
                assert(prev[t as int] as int == walk_distance(a_old, b_new));
                assert(row@[t - 1] as int == walk_distance(a_new, b_old));
                assert(prev[t - 1] as int == walk_distance(a_old, b_old));
            }
            let above: u32 = row[t];
            let left: u32 = row[t - 1];
            let by_deletion: u32 = above + 1;
            let by_insertion: u32 = left + 1;
            let by_pair: u32 = diagonal + symbol_cost(alpha[i], beta[t - 1]);
            let best: u32 = if by_deletion <= by_insertion && by_deletion <= by_pair {
                by_deletion
            } else if by_insertion <= by_pair {
                by_insertion
            } else {
                by_pair
            };
            diagonal = above;
            row[t] = best;
            t = t + 1;
        }
        i = i + 1;
    }
    assert(alpha@.take(n as int) =~= alpha@);
    assert(beta@.take(m as int) =~= beta@);
    row[m]
}

/// The distance that the walks of the search measure: the least number of
/// errors of an alignment that begins and ends with a pair of aligned
/// symbols, an unreadable symbol matching nothing. Where no such alignment
/// exists the result is `u32::MAX`.
pub fn modified_levenshtein(alpha: &[u8], beta: &[u8]) -> (r: u32)
    requires
        alpha@.len() <= i32::MAX,
        beta@.len() <= i32::MAX,
    ensures
        match anchored_distance(alpha@, beta@) {
            Some(d) => r as int == d && r < u32::MAX,
            None => r == u32::MAX,
        },
{
    let n: usize = alpha.len();
    let m: usize = beta.len();
    if n == 0 && m == 0 {
        return 0;
    }
    if n == 0 || m == 0 {
        return u32::MAX;
    }
    let first: u32 = symbol_cost(alpha[0], beta[0]);
    if n == 1 && m == 1 {
        return first;
    }
    if n == 1 || m == 1 {
        return u32::MAX;
    }
    let last: u32 = symbol_cost(alpha[n - 1], beta[m - 1]);
    let inner_a: &[u8] = slice_subrange(alpha, 1, n - 1);
    let inner_b: &[u8] = slice_subrange(beta, 1, m - 1);
    proof {
        lemma_walk_distance_bounds(inner_a@, inner_b@);
    }
    first + compute_walk_distance(inner_a, inner_b) + last
}

/// The part of the query sequence that a candidate aligns.
pub open spec fn aligned_a(c: Candidate, maps: Maps, id_a: int) -> Seq<u8> {
    maps.sequence(id_a).subrange(c.spec_a1(), c.spec_a1() + c.overlap_a)
}

/// The part of the other sequence that a candidate aligns.
pub open spec fn aligned_b(c: Candidate, maps: Maps) -> Seq<u8> {
    maps.sequence(c.id_b as int).subrange(c.spec_b1(), c.spec_b1() + c.overlap_b)
}

/// The solution that a candidate stands for, before any translation: seen
/// from the query sequence, in the coordinates of the corpus text.
pub open spec fn initial_solution(
    c: Candidate,
    id_a: int,
    a_len: int,
    b_len: int,
    errors: u32,
    reversals: bool,
) -> Solution {
    Solution {
        id_a: id_a as usize,
        id_b: c.id_b,
        orientation: orientation_of(id_a, c.id_b as int, reversals),
        overhang_left_a: c.overhang_left_a,
        overhang_right_b: (c.spec_b3(b_len) - c.spec_a3(a_len)) as i32,
        overlap_a: c.overlap_a,
        overlap_b: c.overlap_b,
        errors,
    }
}

/// The translation into canonical form, in three steps: exchange the
/// sequences' roles where the first has the larger id; where reverse
/// complements are searched and the first sequence is one, pass to the
/// companions of both; mirror the geometry, since the corpus text stores
/// every sequence backwards.
pub open spec fn externalized(sol: Solution, reversals: bool) -> Solution {
    let upright = if sol.id_a > sol.id_b {
        sol.v_flipped()
    } else {
        sol
    };
    let forward = if reversals && is_reversed_id(upright.id_a as int) {
        upright.h_flipped()
    } else {
        upright
    };
    forward.mirrored()
}

/// The solution in canonical form that a candidate stands for.
pub open spec fn canonical_solution(
    c: Candidate,
    id_a: int,
    a_len: int,
    b_len: int,
    errors: u32,
    reversals: bool,
) -> Solution {
    externalized(initial_solution(c, id_a, a_len, b_len, errors, reversals), reversals)
}

/// What a candidate must satisfy to be verified under a configuration: it
/// names a sequence other than the query and its companion, fits the two
/// sequences, and under Hamming distance aligns parts of equal length.
pub open spec fn verifiable(id_a: int, c: Candidate, config: Config, maps: Maps) -> bool {
    &&& 0 <= id_a < maps.indexes@.len()
    &&& c.id_b < maps.indexes@.len()
    &&& c.id_b != id_a
    &&& config.reversals ==> id_a != companion_of(c.id_b as int)
    &&& c.fits(maps.sequence(id_a).len() as int, maps.sequence(c.id_b as int).len() as int)
    &&& !config.edit_distance ==> c.overlap_a == c.overlap_b
}

/// The number of errors allowed in an overlap:
/// `⌊rate * max(overlap_a, overlap_b)⌋`.
pub open spec fn error_limit(c: Candidate, config: Config) -> int {
    config.err_rate.floor_of(
        if c.overlap_a > c.overlap_b {
            c.overlap_a as int
        } else {
            c.overlap_b as int
        },
    )
}

/// The outcome of verifying a candidate: its solution in canonical form
/// where the aligned parts are within the allowed number of errors, nothing
/// otherwise.
pub open spec fn verdict(id_a: int, c: Candidate, config: Config, maps: Maps) -> Option<Solution> {
    let errors = spec_distance(aligned_a(c, maps, id_a), aligned_b(c, maps), config.edit_distance);
    if errors <= error_limit(c, config) {
        Some(
            canonical_solution(
                c,
                id_a,
                maps.sequence(id_a).len() as int,
                maps.sequence(c.id_b as int).len() as int,
                errors as u32,
                config.reversals,
            ),
        )
    } else {
        None
    }
}

/// The solutions of a set of candidates: the verdicts of those that pass.
pub open spec fn verified_solutions(
    id_a: int,
    candidates: Set<Candidate>,
    config: Config,
    maps: Maps,
) -> Set<Solution> {
    Set::new(
        |s: Solution|
            exists|c: Candidate|
                candidates.contains(c) && #[trigger] verdict(id_a, c, config, maps) == Some(s),
    )
}

/// Verifies every candidate of one query sequence and collects the
/// solutions of those that pass.
pub fn verify_all(id_a: usize, candidates: CandidateSet, config: &Config, maps: &Maps) -> (r:
    SolutionSet)
    requires
        candidates.wf(),
        config.wf(),
        maps.wf(),
        forall|c: Candidate|
            candidates@.contains(c) ==> verifiable(id_a as int, c, *config, *maps),
    ensures
        r.wf(),
        r@ == verified_solutions(id_a as int, candidates@, *config, *maps),
        (config.reversals ==> maps.companions_wf()) ==> forall|s: Solution|
            r@.contains(s) ==> genuine_overlap(s, *config, *maps),
{
    let num_cands: usize = candidates.len();
    let mut solution_set: SolutionSet = SolutionSet::new();
    let ghost listing = candidates.listing();
    proof {
        candidates.lemma_listing();
    }
    let mut i: usize = 0;
    while i < num_cands
        invariant
            0 <= i <= num_cands,
            num_cands == listing.len(),
            listing == candidates.listing(),
            solution_set.wf(),
            config.wf(),
            maps.wf(),
            forall|c: Candidate| candidates@.contains(c) <==> listing.contains(c),
            forall|c: Candidate|
                candidates@.contains(c) ==> verifiable(id_a as int, c, *config, *maps),
            solution_set@ == verified_solutions(
                id_a as int,
                listing.take(i as int).to_set(),
                *config,
                *maps,
            ),
        decreases num_cands - i,
    {
        let c: Candidate = candidates.get(i);
        let ghost done = listing.take(i as int).to_set();
        let ghost next = listing.take(i + 1).to_set();
        let ghost before = solution_set@;
        assert(listing.contains(c));
        let outcome: Option<Solution> = verify(id_a, c, config, maps);
        if let Some(solution) = outcome {
            solution_set.insert(solution);
        }
        proof {
            let sofar = listing.take(i as int);
            let upto = listing.take(i + 1);
            assert(upto =~= sofar.push(c));
            assert forall|x: Candidate| next.contains(x) == done.insert(c).contains(x) by {
                if upto.contains(x) {
                    let j = choose|j: int| 0 <= j < upto.len() && upto[j] == x;
                    if j < i {
                        assert(sofar[j] == x);
                    }
                }
                if sofar.contains(x) {
                    let j = choose|j: int| 0 <= j < sofar.len() && sofar[j] == x;
                    assert(upto[j] == x);
                }
                if x == c {
                    assert(upto[i as int] == c);
                }
            }
            assert(next =~= done.insert(c));
            let goal = verified_solutions(id_a as int, next, *config, *maps);
            assert forall|s: Solution| solution_set@.contains(s) == goal.contains(s) by {
                if goal.contains(s) {
                    let w = choose|w: Candidate|
                        next.contains(w) && #[trigger] verdict(id_a as int, w, *config, *maps)
                            == Some(s);
                    if w != c {
                        assert(done.contains(w));
                        assert(before.contains(s));
                    }
                }
                if before.contains(s) {
                    let w = choose|w: Candidate|
                        done.contains(w) && #[trigger] verdict(id_a as int, w, *config, *maps)
                            == Some(s);
                    assert(next.contains(w));
                }
                if outcome == Some(s) {
                    assert(next.contains(c));
                }
            }
            assert(solution_set@ =~= goal);
        }
        i = i + 1;
    }
    proof {
        assert(listing.take(num_cands as int) =~= listing);
        assert(listing.to_set() =~= candidates@);
        if config.reversals ==> maps.companions_wf() {
            lemma_verified_are_genuine(id_a as int, candidates@, *config, *maps);
        }
    }
    solution_set
}

/// Verifies one candidate: computes the exact distance of its aligned parts
/// and, where that is within the allowed number of errors, returns its
/// solution in canonical form.
pub fn verify(id_a: usize, c: Candidate, config: &Config, maps: &Maps) -> (r: Option<Solution>)
    requires
        config.wf(),
        maps.wf(),
        verifiable(id_a as int, c, *config, *maps),
    ensures
        r == verdict(id_a as int, c, *config, *maps),
        (config.reversals ==> maps.companions_wf()) ==> (r matches Some(s) ==> genuine_overlap(
            s,
            *config,
            *maps,
        )),
{
    proof {
        if (config.reversals ==> maps.companions_wf()) && verdict(
            id_a as int,
            c,
            *config,
            *maps,
        ) is Some {
            lemma_verdict_is_genuine(id_a as int, c, *config, *maps);
        }
        maps.lemma_sequence_bounds(id_a as int);
        maps.lemma_sequence_bounds(c.id_b as int);
    }
    let a_string: &[u8] = maps.get_string(id_a);
    let b_string: &[u8] = maps.get_string(c.id_b);
    let a_part: &[u8] = slice_subrange(a_string, c.a1(), c.a1() + c.a2());
    let b_part: &[u8] = slice_subrange(b_string, c.b1(), c.b1() + c.b2());
    let errors: u32 = overlap_errors(a_part, b_part, config.edit_distance);
    let longer: usize = if c.overlap_a > c.overlap_b {
        c.overlap_a
    } else {
        c.overlap_b
    };
    let k_limit: u32 = config.err_rate.floor_mul(longer as u32);
    if errors <= k_limit {
        Some(solution_from_candidate(c, id_a, errors, maps, config))
    } else {
        None
    }
}

/// Translates a candidate into its solution in canonical form. It does not
/// check the candidate against the sequences.
pub fn solution_from_candidate(
    c: Candidate,
    id_a: usize,
    errors: u32,
    maps: &Maps,
    config: &Config,
) -> (sol: Solution)
    requires
        maps.wf(),
        verifiable(id_a as int, c, *config, *maps),
    ensures
        sol == canonical_solution(
            c,
            id_a as int,
            maps.sequence(id_a as int).len() as int,
            maps.sequence(c.id_b as int).len() as int,
            errors,
            config.reversals,
        ),
        sol.id_a < sol.id_b,
        config.reversals ==> !is_reversed_id(sol.id_a as int),
        sol.orientation == (if config.reversals && is_reversed_id(sol.id_b as int) {
            Orientation::Reversed
        } else {
            Orientation::Normal
        }),
        sol.errors == errors,
{
    proof {
        vstd::std_specs::vec::axiom_spec_len(&maps.indexes);
    }
    let a_len: usize = maps.get_length(id_a);
    let b_len: usize = maps.get_length(c.id_b);
    let orientation: Orientation = relative_orientation(id_a, c.id_b, config.reversals);
    let mut sol = Solution {
        id_a,
        id_b: c.id_b,
        orientation,
        overlap_a: c.overlap_a,
        overlap_b: c.overlap_b,
        overhang_left_a: c.overhang_left_a,
        overhang_right_b: (c.b3(b_len) as i32) - (c.a3(a_len) as i32),
        errors,
    };
    translate_solution_to_external(&mut sol, config);
    sol
}

/// Brings a solution into canonical form: see [`externalized`].
pub fn translate_solution_to_external(sol: &mut Solution, config: &Config)
    requires
        old(sol).id_a != old(sol).id_b,
        config.reversals ==> old(sol).id_a as int != companion_of(old(sol).id_b as int),
        old(sol).negatable(),
        old(sol).id_a < usize::MAX,
        old(sol).id_b < usize::MAX,
    ensures
        *final(sol) == externalized(*old(sol), config.reversals),
        final(sol).id_a < final(sol).id_b,
        config.reversals ==> !is_reversed_id(final(sol).id_a as int),
        final(sol).orientation == old(sol).orientation,
        final(sol).errors == old(sol).errors,
        config.reversals ==> (is_reversed_id(final(sol).id_b as int) <==> is_reversed_id(
            old(sol).id_a + old(sol).id_b,
        )),
{
    if sol.id_a > sol.id_b {
        sol.v_flip();
    }
    if config.reversals {
        if for_reversed_string(sol.id_a) {
            sol.h_flip(config.reversals);
        }
    }
    sol.mirror_horizontally();
}

/// The same overlap as seen from `b`: the roles of the two sequences
/// exchanged.
pub open spec fn exchanged(c: Candidate, id_a: int) -> Candidate {
    Candidate {
        id_b: id_a as usize,
        overlap_a: c.overlap_b,
        overlap_b: c.overlap_a,
        overhang_left_a: (-c.overhang_left_a) as i32,
    }
}

/// The same overlap as seen from the companion of `b`, which reads the
/// other way: what lay behind the aligned parts lies in front of them.
pub open spec fn turned(c: Candidate, id_a: int, a_len: int, b_len: int) -> Candidate {
    Candidate {
        id_b: companion_of(id_a) as usize,
        overlap_a: c.overlap_b,
        overlap_b: c.overlap_a,
        overhang_left_a: (c.spec_b3(b_len) - c.spec_a3(a_len)) as i32,
    }
}

/// The canonical form does not depend on the side from which an overlap is
/// seen: exchanging the roles of the two sequences, passing to their
/// companions, or both, leads to the same solution.
pub proof fn lemma_canonical_form_is_shared(s: Solution, reversals: bool)
    requires
        s.negatable(),
        s.id_a != s.id_b,
        s.id_a < usize::MAX,
        s.id_b < usize::MAX,
        reversals ==> s.id_a as int != companion_of(s.id_b as int),
    ensures
        externalized(s.v_flipped(), reversals) == externalized(s, reversals),
        reversals ==> externalized(s.h_flipped(), reversals) == externalized(s, reversals),
        reversals ==> externalized(s.h_flipped().v_flipped(), reversals) == externalized(
            s,
            reversals,
        ),
{
}

/// An overlap found from both of its sequences gives one solution: the
/// candidate seen from `a` and the exchanged candidate seen from `b` have
/// the same canonical form, so a set that receives both holds one.
pub proof fn lemma_found_from_both_sides(
    c: Candidate,
    id_a: int,
    a_len: int,
    b_len: int,
    errors: u32,
    reversals: bool,
)
    requires
        0 <= id_a < usize::MAX,
        c.id_b < usize::MAX,
        id_a != c.id_b,
        reversals ==> id_a != companion_of(c.id_b as int),
        c.fits(a_len, b_len),
    ensures
        canonical_solution(exchanged(c, id_a), c.id_b as int, b_len, a_len, errors, reversals)
            == canonical_solution(c, id_a, a_len, b_len, errors, reversals),
        Set::<Solution>::empty().insert(
            canonical_solution(c, id_a, a_len, b_len, errors, reversals),
        ).insert(
            canonical_solution(exchanged(c, id_a), c.id_b as int, b_len, a_len, errors, reversals),
        ).len() == 1,
{
    let s = initial_solution(c, id_a, a_len, b_len, errors, reversals);
    let t = initial_solution(exchanged(c, id_a), c.id_b as int, b_len, a_len, errors, reversals);
    assert(t == s.v_flipped());
    lemma_canonical_form_is_shared(s, reversals);
    let one = Set::<Solution>::empty().insert(externalized(s, reversals));
    assert(one.insert(externalized(s, reversals)) =~= one);
}

/// An overlap found from both reading directions gives one solution: the
/// candidate seen from `a` and the turned candidate seen from the companion
/// of `b` have the same canonical form.
pub proof fn lemma_found_in_both_directions(
    c: Candidate,
    id_a: int,
    a_len: int,
    b_len: int,
    errors: u32,
)
    requires
        0 <= id_a < usize::MAX,
        c.id_b < usize::MAX,
        id_a != c.id_b,
        id_a != companion_of(c.id_b as int),
        c.fits(a_len, b_len),
    ensures
        canonical_solution(
            turned(c, id_a, a_len, b_len),
            companion_of(c.id_b as int),
            b_len,
            a_len,
            errors,
            true,
        ) == canonical_solution(c, id_a, a_len, b_len, errors, true),
        Set::<Solution>::empty().insert(
            canonical_solution(c, id_a, a_len, b_len, errors, true),
        ).insert(
            canonical_solution(
                turned(c, id_a, a_len, b_len),
                companion_of(c.id_b as int),
                b_len,
                a_len,
                errors,
                true,
            ),
        ).len() == 1,
{
    let s = initial_solution(c, id_a, a_len, b_len, errors, true);
    let t = initial_solution(
        turned(c, id_a, a_len, b_len),
        companion_of(c.id_b as int),
        b_len,
        a_len,
        errors,
        true,
    );
    assert(t == s.h_flipped().v_flipped());
    lemma_canonical_form_is_shared(s, true);
    let one = Set::<Solution>::empty().insert(externalized(s, true));
    assert(one.insert(externalized(s, true)) =~= one);
}

/// The part of its first sequence that a solution aligns, cut from the
/// sequence in reading order.
pub open spec fn solution_part_a(sol: Solution, reading_a: Seq<u8>) -> Seq<u8> {
    let a1 = if sol.overhang_left_a > 0 {
        sol.overhang_left_a as int
    } else {
        0
    };
    reading_a.subrange(a1, a1 + sol.overlap_a)
}

/// The part of its second sequence that a solution aligns, cut from the
/// sequence in reading order.
pub open spec fn solution_part_b(sol: Solution, reading_b: Seq<u8>) -> Seq<u8> {
    let b1 = if sol.overhang_left_a < 0 {
        -(sol.overhang_left_a as int)
    } else {
        0
    };
    reading_b.subrange(b1, b1 + sol.overlap_b)
}

/// How the sequence stored as `stored` reads where a solution names it:
/// backwards, or, where the solution passed to the companions, as the
/// complement (the companion of a sequence stored as `s` reads as the
/// complement of `s`).
pub open spec fn reading_of(stored: Seq<u8>, by_companion: bool) -> Seq<u8> {
    if by_companion {
        complement_seq(stored)
    } else {
        stored.reverse()
    }
}

/// A part of the reversed string is the reverse of the mirrored part.
pub proof fn lemma_reverse_subrange(s: Seq<u8>, from: int, to: int)
    requires
        0 <= from <= to <= s.len(),
    ensures
        s.reverse().subrange(s.len() - to, s.len() - from) == s.subrange(from, to).reverse(),
{
    assert(s.reverse().subrange(s.len() - to, s.len() - from) =~= s.subrange(from, to).reverse());
}

/// A part of the complemented string is the complement of the part.
pub proof fn lemma_complement_subrange(s: Seq<u8>, from: int, to: int)
    requires
        0 <= from <= to <= s.len(),
    ensures
        complement_seq(s).subrange(from, to) == complement_seq(s.subrange(from, to)),
{
    assert(complement_seq(s).subrange(from, to) =~= complement_seq(s.subrange(from, to)));
}

/// Translation loses nothing: cut from the sequences as they read where the
/// solution names them, the parts that a solution aligns are the parts that
/// the candidate aligned in the stored sequences, symbol for symbol (read
/// backwards, or complemented where the solution passed to the companions;
/// first and second exchanged where the candidate named the smaller id).
pub proof fn lemma_solution_addresses_aligned_parts(
    c: Candidate,
    id_a: int,
    stored_a: Seq<u8>,
    stored_b: Seq<u8>,
    errors: u32,
    reversals: bool,
)
    requires
        0 <= id_a < usize::MAX,
        c.id_b < usize::MAX,
        id_a != c.id_b,
        reversals ==> id_a != companion_of(c.id_b as int),
        c.fits(stored_a.len() as int, stored_b.len() as int),
    ensures
        ({
            let sol = canonical_solution(
                c,
                id_a,
                stored_a.len() as int,
                stored_b.len() as int,
                errors,
                reversals,
            );
            let part_a = stored_a.subrange(c.spec_a1(), c.spec_a1() + c.overlap_a);
            let part_b = stored_b.subrange(c.spec_b1(), c.spec_b1() + c.overlap_b);
            let swapped = id_a > c.id_b;
            let first_id = if swapped {
                c.id_b as int
            } else {
                id_a
            };
            let by_companion = reversals && is_reversed_id(first_id);
            let first = if swapped {
                stored_b
            } else {
                stored_a
            };
            let second = if swapped {
                stored_a
            } else {
                stored_b
            };
            let first_part = if swapped {
                part_b
            } else {
                part_a
            };
            let second_part = if swapped {
                part_a
            } else {
                part_b
            };
            &&& solution_part_a(sol, reading_of(first, by_companion)) == reading_of(
                first_part,
                by_companion,
            )
            &&& solution_part_b(sol, reading_of(second, by_companion)) == reading_of(
                second_part,
                by_companion,
            )
        }),
{
    let a_len = stored_a.len() as int;
    let b_len = stored_b.len() as int;
    let a1 = c.spec_a1();
    let b1 = c.spec_b1();
    lemma_reverse_subrange(stored_a, a1, a1 + c.overlap_a);
    lemma_reverse_subrange(stored_b, b1, b1 + c.overlap_b);
    lemma_complement_subrange(stored_a, a1, a1 + c.overlap_a);
    lemma_complement_subrange(stored_b, b1, b1 + c.overlap_b);
}

/// Where sequences are stored with their companions, the companion of a
/// sequence reads as the complement of what is stored for the sequence.
pub proof fn lemma_companion_reading(maps: Maps, id: int)
    requires
        maps.wf(),
        maps.companions_wf(),
        0 <= id < maps.indexes@.len(),
    ensures
        0 <= companion_of(id) < maps.indexes@.len(),
        maps.external_sequence(companion_of(id)) == complement_seq(maps.sequence(id)),
{
    let n = maps.indexes@.len() as int;
    if is_reversed_id(id) {
        let even = id - 1;
        assert(maps.sequence(even + 1) == complement_seq(maps.sequence(even).reverse()));
        assert(maps.sequence(even).reverse() =~= complement_seq(maps.sequence(id))) by {
            let r = maps.sequence(even).reverse();
            assert forall|i: int| 0 <= i < r.len() implies r[i] == complement_of(
                complement_seq(r)[i],
            ) by {}
        }
    } else {
        assert(maps.sequence(id + 1) == complement_seq(maps.sequence(id).reverse()));
        assert(maps.sequence(id + 1).reverse() =~= complement_seq(maps.sequence(id)));
    }
}

/// What a solution says of the two sequences as they are read: `id_a` is the
/// smaller id (and a forward sequence where reverse complements are
/// searched); the two aligned parts lie where the overhangs say, one of the
/// two sequences starts with its aligned part and one ends with it; the
/// parts differ by exactly `errors` errors, which is within the rate.
pub open spec fn genuine_overlap(s: Solution, config: Config, maps: Maps) -> bool {
    let reading_a = maps.external_sequence(s.id_a as int);
    let reading_b = maps.external_sequence(s.id_b as int);
    let a1 = if s.overhang_left_a > 0 {
        s.overhang_left_a as int
    } else {
        0
    };
    let b1 = if s.overhang_left_a < 0 {
        -(s.overhang_left_a as int)
    } else {
        0
    };
    let a3 = reading_a.len() - a1 - s.overlap_a;
    let b3 = reading_b.len() - b1 - s.overlap_b;
    let longer = if s.overlap_a > s.overlap_b {
        s.overlap_a as int
    } else {
        s.overlap_b as int
    };
    &&& s.id_a < s.id_b < maps.indexes@.len()
    &&& config.reversals ==> !is_reversed_id(s.id_a as int)
    &&& s.orientation == (if config.reversals && is_reversed_id(s.id_b as int) {
        Orientation::Reversed
    } else {
        Orientation::Normal
    })
    &&& s.overlap_a >= 1
    &&& s.overlap_b >= 1
    &&& a3 >= 0
    &&& b3 >= 0
    &&& a3 == 0 || b3 == 0
    &&& s.overhang_right_b == b3 - a3
    &&& !config.edit_distance ==> s.overlap_a == s.overlap_b
    &&& s.errors == spec_distance(
        solution_part_a(s, reading_a),
        solution_part_b(s, reading_b),
        config.edit_distance,
    )
    &&& s.errors <= config.err_rate.floor_of(longer)
}

/// The canonical solution of a candidate, piece by piece. With
/// `(f1, f2, f3)` the stored pieces of the sequence that the solution names
/// first and `(g1, g2, g3)` those of the second, the solution's left
/// overhang is `f3 - g3` and its right overhang `g1 - f1`, since reading
/// turns the stored pieces round; where the solution names the companions,
/// which read the stored symbols in stored order, they are `f1 - g1` and
/// `g3 - f3`.
pub proof fn lemma_canonical_pieces(
    c: Candidate,
    id_a: int,
    a_len: int,
    b_len: int,
    errors: u32,
    reversals: bool,
)
    requires
        0 <= id_a < usize::MAX,
        c.id_b < usize::MAX,
        id_a != c.id_b,
        reversals ==> id_a != companion_of(c.id_b as int),
        c.fits(a_len, b_len),
    ensures
        ({
            let s = canonical_solution(c, id_a, a_len, b_len, errors, reversals);
            let swapped = id_a > c.id_b;
            let first_id = if swapped {
                c.id_b as int
            } else {
                id_a
            };
            let second_id = if swapped {
                id_a
            } else {
                c.id_b as int
            };
            let by_companion = reversals && is_reversed_id(first_id);
            let f1 = if swapped {
                c.spec_b1()
            } else {
                c.spec_a1()
            };
            let f3 = if swapped {
                c.spec_b3(b_len)
            } else {
                c.spec_a3(a_len)
            };
            let g1 = if swapped {
                c.spec_a1()
            } else {
                c.spec_b1()
            };
            let g3 = if swapped {
                c.spec_a3(a_len)
            } else {
                c.spec_b3(b_len)
            };
            &&& s.id_a as int == (if by_companion {
                companion_of(first_id)
            } else {
                first_id
            })
            &&& s.id_b as int == (if by_companion {
                companion_of(second_id)
            } else {
                second_id
            })
            &&& s.id_a < s.id_b
            &&& reversals ==> !is_reversed_id(s.id_a as int)
            &&& s.orientation == (if reversals && is_reversed_id(s.id_b as int) {
                Orientation::Reversed
            } else {
                Orientation::Normal
            })
            &&& s.errors == errors
            &&& s.overlap_a == (if swapped {
                c.overlap_b
            } else {
                c.overlap_a
            })
            &&& s.overlap_b == (if swapped {
                c.overlap_a
            } else {
                c.overlap_b
            })
            &&& s.overhang_left_a as int == (if by_companion {
                f1 - g1
            } else {
                f3 - g3
            })
            &&& s.overhang_right_b as int == (if by_companion {
                g3 - f3
            } else {
                g1 - f1
            })
        }),
{
}

/// Whatever passes the verification is an overlap of the sequences as they
/// are read: the solution of a verified candidate names two sequences whose
/// parts, cut where the solution says, differ by the number of errors that
/// the solution reports, and that number is within the rate.
pub proof fn lemma_verdict_is_genuine(id_a: int, c: Candidate, config: Config, maps: Maps)
    requires
        maps.wf(),
        config.err_rate.wf(),
        config.reversals ==> maps.companions_wf(),
        verifiable(id_a, c, config, maps),
        verdict(id_a, c, config, maps) is Some,
    ensures
        genuine_overlap(verdict(id_a, c, config, maps)->0, config, maps),
{
    let stored_a = maps.sequence(id_a);
    let stored_b = maps.sequence(c.id_b as int);
    let a_len = stored_a.len() as int;
    let b_len = stored_b.len() as int;
    let part_a = aligned_a(c, maps, id_a);
    let part_b = aligned_b(c, maps);
    let errors = spec_distance(part_a, part_b, config.edit_distance);
    let longer = if c.overlap_a > c.overlap_b {
        c.overlap_a as int
    } else {
        c.overlap_b as int
    };
    vstd::std_specs::vec::axiom_spec_len(&maps.indexes);
    maps.lemma_sequence_bounds(id_a);
    maps.lemma_sequence_bounds(c.id_b as int);
    lemma_rate_floor_bounds(config.err_rate, longer);
    lemma_hamming_bounds(part_a, part_b);
    lemma_levenshtein_bounds(part_a, part_b);
    assert(0 <= errors <= i32::MAX);
    let s = canonical_solution(c, id_a, a_len, b_len, errors as u32, config.reversals);
    assert(verdict(id_a, c, config, maps) == Some(s));
    let swapped = id_a > c.id_b;
    let first_id = if swapped {
        c.id_b as int
    } else {
        id_a
    };
    let second_id = if swapped {
        id_a
    } else {
        c.id_b as int
    };
    let by_companion = config.reversals && is_reversed_id(first_id);
    let first_part = if swapped {
        part_b
    } else {
        part_a
    };
    let second_part = if swapped {
        part_a
    } else {
        part_b
    };
    let reading_a = maps.external_sequence(s.id_a as int);
    let reading_b = maps.external_sequence(s.id_b as int);
    lemma_canonical_pieces(c, id_a, a_len, b_len, errors as u32, config.reversals);
    assert(reading_a == reading_of(maps.sequence(first_id), by_companion) && reading_b
        == reading_of(maps.sequence(second_id), by_companion) && s.id_b < maps.indexes@.len()) by {
        if by_companion {
            lemma_companion_reading(maps, first_id);
            lemma_companion_reading(maps, second_id);
        }
    }
    assert(reading_a.len() == maps.sequence(first_id).len() && reading_b.len() == maps.sequence(
        second_id,
    ).len()) by {
        assert(maps.sequence(first_id).reverse().len() == maps.sequence(first_id).len());
        assert(maps.sequence(second_id).reverse().len() == maps.sequence(second_id).len());
    }
    assert(solution_part_a(s, reading_a) == reading_of(first_part, by_companion)
        && solution_part_b(s, reading_b) == reading_of(second_part, by_companion)) by {
        lemma_solution_addresses_aligned_parts(
            c,
            id_a,
            stored_a,
            stored_b,
            errors as u32,
            config.reversals,
        );
    }
    assert(spec_distance(
        reading_of(first_part, by_companion),
        reading_of(second_part, by_companion),
        config.edit_distance,
    ) == errors) by {
        lemma_distance_carries_over(part_a, part_b, config.edit_distance);
        lemma_distance_carries_over(first_part, second_part, config.edit_distance);
    }
}

/// Every solution of a set of verifiable candidates is an overlap of the
/// sequences as they are read.
pub proof fn lemma_verified_are_genuine(
    id_a: int,
    candidates: Set<Candidate>,
    config: Config,
    maps: Maps,
)
    requires
        maps.wf(),
        config.err_rate.wf(),
        config.reversals ==> maps.companions_wf(),
        forall|c: Candidate| candidates.contains(c) ==> verifiable(id_a, c, config, maps),
    ensures
        forall|s: Solution|
            verified_solutions(id_a, candidates, config, maps).contains(s) ==> genuine_overlap(
                s,
                config,
                maps,
            ),
{
    assert forall|s: Solution|
        verified_solutions(id_a, candidates, config, maps).contains(s) implies genuine_overlap(
        s,
        config,
        maps,
    ) by {
        let c = choose|c: Candidate|
            candidates.contains(c) && #[trigger] verdict(id_a, c, config, maps) == Some(s);
        lemma_verdict_is_genuine(id_a, c, config, maps);
    }
}

} // verus!
