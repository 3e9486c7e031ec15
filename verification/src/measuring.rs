//! Measurements of a run: how long each filter takes to search and to
//! verify, and how many of its candidates stand the verification.

use vstd::prelude::*;
use std::collections::HashMap;
use std::time::{Duration, Instant};
use crate::index::{Interval, TextIndex};
use crate::modes::{block_start, Mode};
use crate::rate::ErrorRate;
use crate::search::{
    get_block_id_lookup,
    lemma_stretched_monotone,
    max_b_len,
    query_of,
    search_fits,
    LastOperation,
    PatternConstants,
    Query,
    SuffixConstants,
};
use crate::structs::run_config::{Config, Maps};
use crate::structs::solutions::{Candidate, CandidateSet};
use crate::verification::{verdict, verifiable, verify, verify_all};

verus! {

broadcast use vstd::std_specs::hash::group_hash_axioms;

/// A point in time. Its contents are opaque here.
#[verifier::external_type_specification]
#[verifier::external_body]
pub struct ExInstant(Instant);

/// Trusted: `std::time::Instant::now`. Nothing is assumed of the result.
#[verifier::external_body]
fn clock_now() -> Instant {
    Instant::now()
}

/// Trusted: `std::time::Instant::duration_since`. Nothing is assumed of the
/// result.
#[verifier::external_body]
fn time_between(earlier: &Instant, later: &Instant) -> Duration {
    later.duration_since(*earlier)
}

/// Trusted: `std::time::Duration::as_nanos`, cut to 64 bits. Nothing is
/// assumed of the result.
#[verifier::external_body]
fn whole_nanos(span: &Duration) -> u64 {
    span.as_nanos() as u64
}

/// The nanoseconds from one point in time to a later one.
fn nanos_between(earlier: &Instant, later: &Instant) -> u64 {
    let span: Duration = time_between(earlier, later);
    whole_nanos(&span)
}

/// What was measured of the filters that keep `suff_blocks` blocks: the time
/// spent searching, the time spent verifying candidates that stood and
/// candidates that fell, and how many there were of each.
#[derive(Debug, Clone, Copy, PartialEq, Eq, Structural)]
pub struct Measurement {
    pub suff_blocks: u64,
    pub search_nanos: u64,
    pub veri_true_nanos: u64,
    pub veri_false_nanos: u64,
    pub sol_true_count: u64,
    pub sol_false_count: u64,
}

/// Sums of measurements, unbounded.
pub struct Totals {
    pub search_nanos: int,
    pub veri_true_nanos: int,
    pub veri_false_nanos: int,
    pub sol_true_count: int,
    pub sol_false_count: int,
}

impl Totals {
    pub open spec fn zero() -> Totals {
        Totals {
            search_nanos: 0,
            veri_true_nanos: 0,
            veri_false_nanos: 0,
            sol_true_count: 0,
            sol_false_count: 0,
        }
    }

    pub open spec fn plus(self, m: Measurement) -> Totals {
        Totals {
            search_nanos: self.search_nanos + m.search_nanos,
            veri_true_nanos: self.veri_true_nanos + m.veri_true_nanos,
            veri_false_nanos: self.veri_false_nanos + m.veri_false_nanos,
            sol_true_count: self.sol_true_count + m.sol_true_count,
            sol_false_count: self.sol_false_count + m.sol_false_count,
        }
    }

    /// Every sum fits a 64-bit counter.
    pub open spec fn fits(self) -> bool {
        &&& 0 <= self.search_nanos <= u64::MAX
        &&& 0 <= self.veri_true_nanos <= u64::MAX
        &&& 0 <= self.veri_false_nanos <= u64::MAX
        &&& 0 <= self.sol_true_count <= u64::MAX
        &&& 0 <= self.sol_false_count <= u64::MAX
    }
}

impl Measurement {
    /// The measurement as sums.
    pub open spec fn totals(self) -> Totals {
        Totals::zero().plus(self)
    }

    /// The sum of two measurements of filters of the same length.
    pub fn add(self, other: Self) -> (r: Self)
        requires
            self.suff_blocks == other.suff_blocks,
            self.totals().plus(other).fits(),
        ensures
            r.suff_blocks == self.suff_blocks,
            r.totals() == self.totals().plus(other),
    {
        Measurement {
            suff_blocks: self.suff_blocks,
            search_nanos: self.search_nanos + other.search_nanos,
            veri_true_nanos: self.veri_true_nanos + other.veri_true_nanos,
            veri_false_nanos: self.veri_false_nanos + other.veri_false_nanos,
            sol_true_count: self.sol_true_count + other.sol_true_count,
            sol_false_count: self.sol_false_count + other.sol_false_count,
        }
    }

    /// The measurement with every time and count divided by `rhs`, rounded
    /// down.
    pub fn divz(self, rhs: u64) -> (r: Measurement)
        requires
            rhs > 0,
        ensures
            r == (Measurement {
                suff_blocks: self.suff_blocks,
                search_nanos: self.search_nanos / rhs,
                veri_true_nanos: self.veri_true_nanos / rhs,
                veri_false_nanos: self.veri_false_nanos / rhs,
                sol_true_count: self.sol_true_count / rhs,
                sol_false_count: self.sol_false_count / rhs,
            }),
    {
        Measurement {
            suff_blocks: self.suff_blocks,
            search_nanos: self.search_nanos / rhs,
            veri_true_nanos: self.veri_true_nanos / rhs,
            veri_false_nanos: self.veri_false_nanos / rhs,
            sol_true_count: self.sol_true_count / rhs,
            sol_false_count: self.sol_false_count / rhs,
        }
    }

    /// The measurement of nothing.
    pub fn null(suff_blocks: u64) -> (r: Measurement)
        ensures
            r.suff_blocks == suff_blocks,
            r.totals() == Totals::zero(),
    {
        Measurement {
            suff_blocks,
            search_nanos: 0,
            veri_true_nanos: 0,
            veri_false_nanos: 0,
            sol_true_count: 0,
            sol_false_count: 0,
        }
    }
}

/// The measurements of all patterns in one list.
pub open spec fn flattened(per_pattern: Seq<Vec<Measurement>>) -> Seq<Measurement>
    decreases per_pattern.len(),
{
    if per_pattern.len() == 0 {
        Seq::empty()
    } else {
        flattened(per_pattern.drop_last()) + per_pattern.last()@
    }
}

/// The sums of the measurements of filters that keep `suff_blocks` blocks.
pub open spec fn totals_for(ms: Seq<Measurement>, suff_blocks: u64) -> Totals
    decreases ms.len(),
{
    if ms.len() == 0 {
        Totals::zero()
    } else if ms.last().suff_blocks == suff_blocks {
        totals_for(ms.drop_last(), suff_blocks).plus(ms.last())
    } else {
        totals_for(ms.drop_last(), suff_blocks)
    }
}

/// Whether a filter length occurs among the measurements.
pub open spec fn measured(ms: Seq<Measurement>, suff_blocks: u64) -> bool {
    exists|i: int| 0 <= i < ms.len() && (#[trigger] ms[i]).suff_blocks == suff_blocks
}

/// Sums the measurements of all patterns by filter length.
pub fn measure_agglutinate(pattern_measurements: Vec<Vec<Measurement>>) -> (sums: HashMap<
    u64,
    Measurement,
>)
    requires
        forall|k: u64| (#[trigger] totals_for(flattened(pattern_measurements@), k)).fits(),
    ensures
        forall|k: u64|
            sums@.contains_key(k) <==> measured(flattened(pattern_measurements@), k),
        forall|k: u64|
            sums@.contains_key(k) ==> (#[trigger] sums@[k]).suff_blocks == k && sums@[k].totals()
                == totals_for(flattened(pattern_measurements@), k),
{
    let mut sums: HashMap<u64, Measurement> = HashMap::new();
    let ghost all = flattened(pattern_measurements@);
    let mut i: usize = 0;
    assert(pattern_measurements@.take(0).len() == 0);
    while i < pattern_measurements.len()
        invariant
            0 <= i <= pattern_measurements@.len(),
            all == flattened(pattern_measurements@),
            forall|k: u64| (#[trigger] totals_for(all, k)).fits(),
            forall|k: u64|
                sums@.contains_key(k) <==> measured(
                    flattened(pattern_measurements@.take(i as int)),
                    k,
                ),
            forall|k: u64|
                sums@.contains_key(k) ==> (#[trigger] sums@[k]).suff_blocks == k
                    && sums@[k].totals() == totals_for(
                    flattened(pattern_measurements@.take(i as int)),
                    k,
                ),
        decreases pattern_measurements@.len() - i,
    {
        let ghost done = flattened(pattern_measurements@.take(i as int));
        let ghost pat = pattern_measurements@[i as int]@;
        proof {
            assert(pattern_measurements@.take(i + 1).drop_last() =~= pattern_measurements@.take(
                i as int,
            ));
            assert(pattern_measurements@.take(i + 1).last() == pattern_measurements@[i as int]);
            assert(done + pat.take(0) =~= done);
            lemma_flattened_prefix(pattern_measurements@, i + 1);
        }
        let mut j: usize = 0;
        while j < pattern_measurements[i].len()
            invariant
                0 <= i < pattern_measurements@.len(),
                0 <= j <= pat.len(),
                pat == pattern_measurements@[i as int]@,
                done == flattened(pattern_measurements@.take(i as int)),
                all == flattened(pattern_measurements@),
                (done + pat).len() <= all.len(),
                done + pat == all.take((done + pat).len() as int),
                forall|k: u64| (#[trigger] totals_for(all, k)).fits(),
                forall|k: u64|
                    sums@.contains_key(k) <==> measured(done + pat.take(j as int), k),
                forall|k: u64|
                    sums@.contains_key(k) ==> (#[trigger] sums@[k]).suff_blocks == k
                        && sums@[k].totals() == totals_for(done + pat.take(j as int), k),
            decreases pat.len() - j,
        {
            let fil: Measurement = pattern_measurements[i][j];
            let suff_blocks: u64 = fil.suff_blocks;
            let ghost sofar = done + pat.take(j as int);
            let ghost upto = done + pat.take(j + 1);
            proof {
                assert(upto =~= sofar.push(fil));
                assert(upto.drop_last() =~= sofar);
                assert(upto =~= all.take(upto.len() as int));
                lemma_totals_grow(all, upto.len() as int, suff_blocks);
                lemma_totals_nonnegative(sofar, suff_blocks);
            }
            if !sums.contains_key(&suff_blocks) {
                sums.insert(suff_blocks, Measurement::null(suff_blocks));
                proof {
                    lemma_unmeasured_totals(sofar, suff_blocks);
                }
            }
            let old: Measurement = *sums.get(&suff_blocks).unwrap();
            sums.insert(suff_blocks, fil.add(old));
            proof {
                assert forall|k: u64| sums@.contains_key(k) <==> measured(upto, k) by {
                    if measured(upto, k) {
                        let w = choose|w: int| 0 <= w < upto.len() && (#[trigger] upto[w]).suff_blocks
                            == k;
                        if w < sofar.len() {
                            assert(sofar[w].suff_blocks == k);
                        }
                    }
                    if measured(sofar, k) {
                        let w = choose|w: int|
                            0 <= w < sofar.len() && (#[trigger] sofar[w]).suff_blocks == k;
                        assert(upto[w].suff_blocks == k);
                    }
                    if k == suff_blocks {
                        assert(upto[sofar.len() as int].suff_blocks == k);
                    }
                }
            }
            j = j + 1;
        }
        proof {
            assert(pat.take(j as int) =~= pat);
        }
        i = i + 1;
    }
    proof {
        assert(pattern_measurements@.take(i as int) =~= pattern_measurements@);
    }
    sums
}

/// What the first patterns measured comes first in the list of all
/// measurements.
proof fn lemma_flattened_prefix(per_pattern: Seq<Vec<Measurement>>, n: int)
    requires
        0 <= n <= per_pattern.len(),
    ensures
        flattened(per_pattern.take(n)).len() <= flattened(per_pattern).len(),
        flattened(per_pattern.take(n)) == flattened(per_pattern).take(
            flattened(per_pattern.take(n)).len() as int,
        ),
    decreases per_pattern.len() - n,
{
    if n == per_pattern.len() {
        assert(per_pattern.take(n) =~= per_pattern);
        assert(flattened(per_pattern).take(flattened(per_pattern).len() as int) =~= flattened(
            per_pattern,
        ));
    } else {
        lemma_flattened_prefix(per_pattern, n + 1);
        assert(per_pattern.take(n + 1).drop_last() =~= per_pattern.take(n));
        let shorter = flattened(per_pattern.take(n));
        let longer = flattened(per_pattern.take(n + 1));
        assert(longer == shorter + per_pattern.take(n + 1).last()@);
        assert(shorter =~= flattened(per_pattern).take(shorter.len() as int));
    }
}

/// Sums are never negative.
proof fn lemma_totals_nonnegative(ms: Seq<Measurement>, k: u64)
    ensures
        totals_for(ms, k).search_nanos >= 0,
        totals_for(ms, k).veri_true_nanos >= 0,
        totals_for(ms, k).veri_false_nanos >= 0,
        totals_for(ms, k).sol_true_count >= 0,
        totals_for(ms, k).sol_false_count >= 0,
    decreases ms.len(),
{
    if ms.len() > 0 {
        lemma_totals_nonnegative(ms.drop_last(), k);
    }
}

/// The sums over a prefix are at most the sums over the whole list.
proof fn lemma_totals_grow(ms: Seq<Measurement>, n: int, k: u64)
    requires
        0 <= n <= ms.len(),
    ensures
        totals_for(ms.take(n), k).search_nanos <= totals_for(ms, k).search_nanos,
        totals_for(ms.take(n), k).veri_true_nanos <= totals_for(ms, k).veri_true_nanos,
        totals_for(ms.take(n), k).veri_false_nanos <= totals_for(ms, k).veri_false_nanos,
        totals_for(ms.take(n), k).sol_true_count <= totals_for(ms, k).sol_true_count,
        totals_for(ms.take(n), k).sol_false_count <= totals_for(ms, k).sol_false_count,
    decreases ms.len() - n,
{
    if n == ms.len() {
        assert(ms.take(n) =~= ms);
    } else {
        lemma_totals_grow(ms, n + 1, k);
        assert(ms.take(n + 1).drop_last() =~= ms.take(n));
    }
}

/// A filter length that was not measured has sums of zero.
proof fn lemma_unmeasured_totals(ms: Seq<Measurement>, k: u64)
    requires
        !measured(ms, k),
    ensures
        totals_for(ms, k) == Totals::zero(),
    decreases ms.len(),
{
    if ms.len() > 0 {
        assert(ms[ms.len() - 1].suff_blocks != k);
        assert forall|i: int| 0 <= i < ms.drop_last().len() implies (#[trigger] ms.drop_last()[i]).suff_blocks
            != k by {
            assert(ms[i].suff_blocks != k);
        }
        lemma_unmeasured_totals(ms.drop_last(), k);
    }
}

/// Whether a candidate stands the verification.
pub open spec fn stands(id_a: int, c: Candidate, config: Config, maps: Maps) -> bool {
    verdict(id_a, c, config, maps) is Some
}

/// Parts a set of candidates into those that stand the verification and
/// those that fall.
pub fn wheat_from_chaff(id_a: usize, candidates: CandidateSet, config: &Config, maps: &Maps) -> (r:
    (CandidateSet, CandidateSet))
    requires
        candidates.wf(),
        config.wf(),
        maps.wf(),
        forall|c: Candidate|
            candidates@.contains(c) ==> verifiable(id_a as int, c, *config, *maps),
    ensures
        r.0.wf(),
        r.1.wf(),
        r.0@ == candidates@.filter(|c: Candidate| stands(id_a as int, c, *config, *maps)),
        r.1@ == candidates@.filter(|c: Candidate| !stands(id_a as int, c, *config, *maps)),
        forall|c: Candidate| r.0@.contains(c) ==> verifiable(id_a as int, c, *config, *maps),
        forall|c: Candidate| r.1@.contains(c) ==> verifiable(id_a as int, c, *config, *maps),
{
    let mut wheat: CandidateSet = CandidateSet::new();
    let mut chaff: CandidateSet = CandidateSet::new();
    let n: usize = candidates.len();
    let ghost listing = candidates.listing();
    let ghost good = |c: Candidate| stands(id_a as int, c, *config, *maps);
    let ghost bad = |c: Candidate| !stands(id_a as int, c, *config, *maps);
    proof {
        candidates.lemma_listing();
    }
    let mut i: usize = 0;
    while i < n
        invariant
            0 <= i <= n,
            n == listing.len(),
            listing == candidates.listing(),
            wheat.wf(),
            chaff.wf(),
            config.wf(),
            maps.wf(),
            good == (|c: Candidate| stands(id_a as int, c, *config, *maps)),
            bad == (|c: Candidate| !stands(id_a as int, c, *config, *maps)),
            forall|c: Candidate| candidates@.contains(c) <==> listing.contains(c),
            forall|c: Candidate|
                candidates@.contains(c) ==> verifiable(id_a as int, c, *config, *maps),
            forall|c: Candidate|
                wheat@.contains(c) <==> (good(c) && exists|j: int|
                    0 <= j < i && listing[j] == c),
            forall|c: Candidate|
                chaff@.contains(c) <==> (bad(c) && exists|j: int| 0 <= j < i && listing[j] == c),
        decreases n - i,
    {
        let c: Candidate = candidates.get(i);
        assert(listing.contains(c));
        match verify(id_a, c, config, maps) {
            Some(_) => {
                wheat.insert(c);
            },
            None => {
                chaff.insert(c);
            },
        }
        i = i + 1;
    }
    proof {
        assert forall|c: Candidate| wheat@.contains(c) == candidates@.filter(good).contains(c) by {
            if candidates@.contains(c) {
                let j = choose|j: int| 0 <= j < listing.len() && listing[j] == c;
            }
        }
        assert forall|c: Candidate| chaff@.contains(c) == candidates@.filter(bad).contains(c) by {
            if candidates@.contains(c) {
                let j = choose|j: int| 0 <= j < listing.len() && listing[j] == c;
            }
        }
        assert(wheat@ =~= candidates@.filter(good));
        assert(chaff@ =~= candidates@.filter(bad));
    }
    (wheat, chaff)
}

/// The number of filters of a query that are searched.
pub open spec fn searched_filter_count(q: Query) -> int {
    let n = q.blocks.len() as int;
    let most = n - q.mode.spec_fewest_suff_blocks() + 1;
    if max_b_len(q.err_rate, q.edit_distance, q.pattern.len() as int) < q.thresh || most <= 0 {
        0
    } else if most < n {
        most
    } else {
        n
    }
}

impl TextIndex {
    /// Searches every filter of one pattern by itself and measures it.
    ///
    /// The result holds one measurement for each searched filter, the
    /// shortest filter first. Its counts say how many of the filter's
    /// candidates stand the verification and how many fall; of its times
    /// nothing is promised.
    pub fn measures(
        &self,
        pattern: &[u8],
        config: &Config,
        maps: &Maps,
        id_a: usize,
        mode: &Mode,
    ) -> (r: Vec<Measurement>)
        requires
            self.wf(),
            config.wf(),
            maps.wf(),
            id_a < maps.indexes@.len(),
            pattern@ == maps.sequence(id_a as int),
            forall|k: int|
                0 <= k < config.spec_alphabet().len() ==> self@.knows(
                    #[trigger] config.spec_alphabet()[k],
                ),
            search_fits(pattern@.len() as int, *config, *mode),
        ensures
            ({
                let q = query_of(pattern@, *config, *maps, id_a as int, *mode);
                &&& r@.len() == searched_filter_count(q)
                &&& forall|j: int|
                    0 <= j < r@.len() ==> {
                        let blind = r@.len() - 1 - j;
                        let found = q.explore(self@, q.filter(blind), q.root(self@, blind));
                        &&& (#[trigger] r@[j]).suff_blocks == q.blocks.len() - blind
                        &&& r@[j].sol_true_count == found.filter(
                            |c: Candidate| stands(id_a as int, c, *config, *maps),
                        ).len()
                        &&& r@[j].sol_false_count == found.filter(
                            |c: Candidate| !stands(id_a as int, c, *config, *maps),
                        ).len()
                    }
            }),
    {
        let mut measurements: Vec<Measurement> = Vec::new();
        let patt_len: usize = pattern.len();
        let err_rate: ErrorRate = config.err_rate;
        let ghost q = query_of(pattern@, *config, *maps, id_a as int, *mode);
        let ghost ix = self@;
        proof {
            crate::rate::lemma_rate_stretch_bounds(err_rate, patt_len as int);
            crate::modes::lemma_mode_blocks_shape(
                *mode,
                patt_len as int,
                err_rate,
                config.thresh as int,
            );
            self.lemma_rows();
        }
        let block_lengths: Vec<i32> = mode.get_block_lengths(
            patt_len as i32,
            err_rate,
            config.thresh,
        );
        let block_id_lookup: Vec<i32> = get_block_id_lookup(block_lengths.as_slice());
        let full_interval: Interval = self.full_interval();
        let patt_blocks: i32 = block_lengths.len() as i32;
        let longest: u64 = if config.edit_distance {
            err_rate.stretch(patt_len as u32)
        } else {
            patt_len as u64
        };
        if longest < config.thresh as u64 {
            return measurements;
        }
        proof {
            crate::rate::lemma_rate_floor_bounds(err_rate, longest as int);
        }
        let hard_error_cap: i32 = err_rate.floor_mul(longest as u32) as i32;
        let alphabet: Vec<u8> = config.alphabet();
        let p_cns = PatternConstants {
            config,
            maps,
            block_lengths: &block_lengths,
            block_id_lookup: &block_id_lookup,
            alphabet: &alphabet,
            pattern,
            id_a,
            hard_error_cap,
            patt_blocks,
            mode,
        };
        assert(p_cns@ == q);
        let fewest: i32 = mode.get_fewest_suff_blocks();
        let mut first_block_id: usize = 0;
        let mut blind_a_chars: usize = 0;
        while first_block_id < block_lengths.len() && patt_blocks - (first_block_id as i32)
            >= fewest
            invariant
                0 <= first_block_id <= block_lengths@.len(),
                p_cns.wf(),
                self.serves(q),
                config.wf(),
                maps.wf(),
                q == p_cns@,
                q == query_of(pattern@, *config, *maps, id_a as int, *mode),
                pattern@ == maps.sequence(id_a as int),
                ix == self@,
                q.blocks == block_lengths@,
                patt_blocks == block_lengths@.len(),
                patt_len == pattern@.len(),
                err_rate == q.err_rate,
                fewest as int == q.mode.spec_fewest_suff_blocks(),
                full_interval == (Interval { lower: 0, upper: ix.bwt.len() as usize }),
                ix.bwt.len() <= usize::MAX,
                blind_a_chars == block_start(q.blocks, first_block_id as int),
                measurements@.len() == first_block_id,
                first_block_id > 0 ==> q.searches_filter(first_block_id - 1),
                forall|j: int|
                    0 <= j < measurements@.len() ==> {
                        let blind = measurements@.len() - 1 - j;
                        let found = q.explore(ix, q.filter(blind), q.root(ix, blind));
                        &&& (#[trigger] measurements@[j]).suff_blocks == q.blocks.len() - blind
                        &&& measurements@[j].sol_true_count == found.filter(
                            |c: Candidate| stands(id_a as int, c, *config, *maps),
                        ).len()
                        &&& measurements@[j].sol_false_count == found.filter(
                            |c: Candidate| !stands(id_a as int, c, *config, *maps),
                        ).len()
                    },
            decreases block_lengths@.len() - first_block_id,
        {
            proof {
                crate::modes::lemma_block_start_monotone(
                    q.blocks,
                    first_block_id as int,
                    q.blocks.len() as int,
                );
                crate::modes::lemma_block_start_monotone(
                    q.blocks,
                    first_block_id + 1,
                    q.blocks.len() as int,
                );
                crate::rate::lemma_rate_stretch_bounds(err_rate, blind_a_chars as int);
                lemma_stretched_monotone(err_rate, blind_a_chars as int, patt_len as int);
            }
            let suff_blocks: i32 = patt_blocks - first_block_id as i32;
            let s_cns = SuffixConstants {
                blind_blocks: first_block_id as i32,
                blind_a_chars,
                generous_blind_chars: err_rate.stretch(blind_a_chars as u32) as usize,
            };
            assert(s_cns == q.filter(first_block_id as int));
            let p_i: i32 = (patt_len as i32) - 1 - (blind_a_chars as i32);
            let mut candidate_set: CandidateSet = CandidateSet::new();
            let t0: Instant = clock_now();
            self.recurse_candidates(
                &mut candidate_set,
                &p_cns,
                &s_cns,
                0,
                p_i,
                LastOperation::Initial,
                0,
                0,
                &full_interval,
            );
            let ghost found = q.explore(
                ix,
                q.filter(first_block_id as int),
                q.root(ix, first_block_id as int),
            );
            assert(candidate_set@ =~= found);
            proof {
                assert forall|c: Candidate| candidate_set@.contains(c) implies verifiable(
                    id_a as int,
                    c,
                    *config,
                    *maps,
                ) by {
                    assert(q.admits(c));
                }
            }
            let t1: Instant = clock_now();
            let (wheat, chaff) = wheat_from_chaff(id_a, candidate_set, config, maps);
            let wheat_len: u64 = wheat.len() as u64;
            let chaff_len: u64 = chaff.len() as u64;
            let t2: Instant = clock_now();
            let _ = verify_all(id_a, wheat, config, maps);
            let t3: Instant = clock_now();
            let _ = verify_all(id_a, chaff, config, maps);
            let t4: Instant = clock_now();
            let m = Measurement {
                suff_blocks: suff_blocks as u64,
                search_nanos: nanos_between(&t0, &t1),
                veri_true_nanos: nanos_between(&t2, &t3),
                veri_false_nanos: nanos_between(&t3, &t4),
                sol_true_count: wheat_len,
                sol_false_count: chaff_len,
            };
            let ghost before = measurements@;
            measurements.insert(0, m);
            proof {
                assert forall|j: int| 0 <= j < measurements@.len() implies {
                    let blind = measurements@.len() - 1 - j;
                    let found_j = q.explore(ix, q.filter(blind), q.root(ix, blind));
                    &&& (#[trigger] measurements@[j]).suff_blocks == q.blocks.len() - blind
                    &&& measurements@[j].sol_true_count == found_j.filter(
                        |c: Candidate| stands(id_a as int, c, *config, *maps),
                    ).len()
                    &&& measurements@[j].sol_false_count == found_j.filter(
                        |c: Candidate| !stands(id_a as int, c, *config, *maps),
                    ).len()
                } by {
                    if j > 0 {
                        assert(measurements@[j] == before[j - 1]);
                    }
                }
            }
            assert(block_lengths@[first_block_id as int] >= 0);
            blind_a_chars = blind_a_chars + block_lengths[first_block_id] as usize;
            first_block_id = first_block_id + 1;
        }
        measurements
    }
}

} // verus!
