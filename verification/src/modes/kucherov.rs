//! The balanced-block scheme.
//!
//! Let `l0` be the shortest overlap length, at or above the threshold, at
//! which the number of allowed errors goes up. The part of the pattern before
//! `l0` is cut into `k = ⌈rate * l0⌉ + s - 1` blocks of nearly equal length,
//! the last of them (the L block) long enough to reach back to the threshold.
//! Behind it follows one block for each further length at which the number of
//! allowed errors goes up.

use vstd::prelude::*;
use crate::rate::{
    ceil_div,
    lemma_ceil_div_char,
    lemma_div_monotone,
    lemma_floor_div_char,
    lemma_rate_ceil_bounds,
    lemma_rate_floor_bounds,
    ErrorRate,
};
use crate::modes::{
    all_positive,
    block_len,
    block_start,
    blocks_covering,
    blocks_total,
    lemma_block_id_monotone,
    lemma_block_id_past_end,
    lemma_block_id_unique,
    whole_blocks_within,
};

verus! {

/// The balanced-block scheme with its parameter `s`: within any `k` blocks of
/// a match at most `s - 1`  hold an error before the search gives up.
#[derive(Debug, Clone, Copy)]
pub struct KucherovMode {
    pub s_param: i32,
}

/// Whether the number of allowed errors, rounded up, grows from length
/// `len - 1` to `len`.
pub open spec fn is_step(e: ErrorRate, len: int) -> bool {
    e.ceil_of(len - 1) < e.ceil_of(len)
}

/// The lengths in `from ..= to` at which the number of allowed errors grows,
/// in increasing order.
pub open spec fn steps(e: ErrorRate, from: int, to: int) -> Seq<int>
    decreases to - from + 1,
{
    if to < from {
        Seq::empty()
    } else if is_step(e, to) {
        steps(e, from, to - 1).push(to)
    } else {
        steps(e, from, to - 1)
    }
}

/// The steps between the threshold and the pattern length, closed by the
/// length just behind the pattern.
pub open spec fn step_lengths(e: ErrorRate, thresh: int, patt_len: int) -> Seq<int> {
    steps(e, thresh, patt_len).push(patt_len + 1)
}

/// `k`: the number of blocks before the first step `l0`.
pub open spec fn prior_block_count(e: ErrorRate, l0: int, s: int) -> int {
    (if e.ceil_of(l0) > 1 {
        e.ceil_of(l0)
    } else {
        1
    }) + s - 1
}

/// The length of the L block, the last block before the first step.
pub open spec fn l_block_len(l0: int, thresh: int, k: int) -> int {
    let even_share = ceil_div(l0 - 1, k);
    if even_share > l0 - thresh {
        even_share
    } else {
        l0 - thresh
    }
}

/// The length of the shorter blocks before the L block.
pub open spec fn short_block_len(l0: int, big_l: int, k: int) -> int {
    if k > 1 {
        (l0 - 1 - big_l) / (k - 1)
    } else {
        0
    }
}

/// How many blocks before the L block are one symbol longer than the rest.
pub open spec fn longer_block_count(l0: int, big_l: int, k: int) -> int {
    l0 - 1 - big_l - short_block_len(l0, big_l, k) * (k - 1)
}

/// The block lengths of the balanced-block scheme: the shorter blocks, the
/// longer blocks, the L block, then one block from each step to the next.
pub open spec fn kucherov_blocks(patt_len: int, e: ErrorRate, thresh: int, s: int) -> Seq<i32> {
    if patt_len < thresh {
        seq![patt_len as i32]
    } else {
        let ls = step_lengths(e, thresh, patt_len);
        let k = prior_block_count(e, ls[0], s);
        let big_l = l_block_len(ls[0], thresh, k);
        let p = short_block_len(ls[0], big_l, k);
        let longer = longer_block_count(ls[0], big_l, k);
        Seq::new((k - 1 - longer) as nat, |i: int| p as i32) + Seq::new(
            longer as nat,
            |i: int| (p + 1) as i32,
        ) + seq![big_l as i32] + Seq::new(
            (ls.len() - 1) as nat,
            |j: int| (ls[j + 1] - ls[j]) as i32,
        )
    }
}

impl KucherovMode {
    /// The parameter is usable: at least 1.
    pub open spec fn wf(self) -> bool {
        self.s_param >= 1
    }

    pub open spec fn spec_filter(self, completed_blocks: int, patt_blocks: int) -> int {
        if completed_blocks <= patt_blocks - self.s_param {
            completed_blocks
        } else {
            patt_blocks - self.s_param
        }
    }

    pub open spec fn spec_condition(
        self,
        generous_overlap_len: int,
        completed_blocks: int,
        thresh: int,
        errors: int,
    ) -> bool {
        &&& generous_overlap_len >= thresh
        &&& completed_blocks > 0
        &&& completed_blocks >= self.s_param - 1
        &&& errors <= completed_blocks - self.s_param + 1
    }

    pub fn new(s_param: i32) -> (r: Self)
        ensures
            r.s_param == s_param,
    {
        KucherovMode { s_param }
    }

    /// By how many blocks the prefix of any admissible overlap exceeds its
    /// number of allowed errors.
    pub fn get_guaranteed_extra_blocks(&self) -> (r: i32)
        ensures
            r == self.s_param,
    {
        self.s_param
    }

    /// The shortest suffix of the block sequence that is searched as a filter.
    pub fn get_fewest_suff_blocks(&self) -> (r: i32)
        ensures
            r == self.s_param,
    {
        self.s_param
    }

    /// The number of errors permitted once `completed_blocks` blocks have been
    /// matched: one per completed block, but never more than the number of
    /// blocks beyond the `s` that the scheme reserves.
    pub fn filter_func(&self, completed_blocks: i32, patt_blocks: i32, blind_blocks: i32) -> (r:
        i32)
        requires
            patt_blocks - self.s_param >= i32::MIN,
        ensures
            r as int == self.spec_filter(completed_blocks as int, patt_blocks as int),
    {
        let cap: i64 = patt_blocks as i64 - self.s_param as i64;
        if (completed_blocks as i64) <= cap {
            completed_blocks
        } else {
            cap as i32
        }
    }

    /// Whether a search node may emit candidates: the overlap is long enough,
    /// at least one block is complete, and all but `s - 1` of the completed
    /// blocks are free of errors.
    pub fn candidate_condition(
        &self,
        generous_overlap_len: i32,
        completed_blocks: i32,
        thresh: i32,
        errors: i32,
    ) -> (r: bool)
        ensures
            r == self.spec_condition(
                generous_overlap_len as int,
                completed_blocks as int,
                thresh as int,
                errors as int,
            ),
    {
        let c1 = generous_overlap_len >= thresh;
        let c2 = completed_blocks > 0;
        let spare: i64 = completed_blocks as i64 - self.s_param as i64 + 1;
        let c3 = spare >= 0 && (errors as i64) <= spare;
        c1 && c2 && c3
    }

    /// Cuts a pattern of `patt_len` symbols into blocks.
    pub fn get_block_lengths(&self, patt_len: i32, err_rate: ErrorRate, thresh: i32) -> (r: Vec<
        i32,
    >)
        requires
            self.wf(),
            err_rate.wf(),
            patt_len >= 0,
            thresh >= 1,
            patt_len + self.s_param < i32::MAX,
        ensures
            r@ == kucherov_blocks(patt_len as int, err_rate, thresh as int, self.s_param as int),
    {
        let mut block_lengths: Vec<i32> = Vec::new();
        if patt_len < thresh {
            block_lengths.push(patt_len);
            assert(block_lengths@ =~= seq![patt_len]);
            return block_lengths;
        }
        let mut ls: Vec<i32> = Vec::new();
        let mut l: i32 = thresh;
        while l <= patt_len
            invariant
                err_rate.wf(),
                1 <= thresh <= l <= patt_len + 1,
                patt_len < i32::MAX,
                ls@.map_values(|x: i32| x as int) == steps(err_rate, thresh as int, l - 1),
            decreases patt_len + 1 - l,
        {
            let before: u32 = err_rate.ceil_mul((l - 1) as u32);
            let here: u32 = err_rate.ceil_mul(l as u32);
            if before < here {
                ls.push(l);
                assert(ls@.map_values(|x: i32| x as int) =~= steps(
                    err_rate,
                    thresh as int,
                    l - 1,
                ).push(l as int));
            }
            l = l + 1;
        }
        ls.push(patt_len + 1);
        let ghost sl = step_lengths(err_rate, thresh as int, patt_len as int);
        assert(ls@.map_values(|x: i32| x as int) =~= sl);
        proof {
            lemma_steps_shape(err_rate, thresh as int, patt_len as int);
            assert(sl[0] == ls@[0] as int);
        }
        let l0: i32 = ls[0];
        let rounded: i32 = err_rate.ceil_mul(l0 as u32) as i32;
        let k: i32 = (if rounded > 1 {
            rounded
        } else {
            1
        }) + self.s_param - 1;
        proof {
            lemma_prior_shape(err_rate, l0 as int, thresh as int, self.s_param as int);
        }
        let even_share: i32 = (((l0 - 1) as i64 + (k as i64 - 1)) / (k as i64)) as i32;
        let big_l: i32 = if even_share > l0 - thresh {
            even_share
        } else {
            l0 - thresh
        };
        assert(big_l as int == l_block_len(l0 as int, thresh as int, k as int));
        let p: i32 = if k > 1 {
            (l0 - 1 - big_l) / (k - 1)
        } else {
            0
        };
        assert(p * (k - 1) <= l0 - 1 - big_l && p * (k - 1) >= 0) by (nonlinear_arith)
            requires
                p == short_block_len(l0 as int, big_l as int, k as int),
                0 <= p <= l0 - 1 - big_l,
                k >= 1,
                0 <= longer_block_count(l0 as int, big_l as int, k as int),
        ;
        let first_half_len: i32 = p * (k - 1) + big_l;
        let longer: i32 = l0 - 1 - first_half_len;
        let ghost goal = kucherov_blocks(
            patt_len as int,
            err_rate,
            thresh as int,
            self.s_param as int,
        );
        let shorter: i32 = k - 1 - longer;
        let mut i: i32 = 0;
        while i < shorter
            invariant
                0 <= i <= shorter,
                block_lengths@ == Seq::new(i as nat, |j: int| p),
            decreases shorter - i,
        {
            block_lengths.push(p);
            i = i + 1;
            assert(block_lengths@ =~= Seq::new(i as nat, |j: int| p));
        }
        let ghost part1 = block_lengths@;
        let mut i: i32 = 0;
        while i < longer
            invariant
                0 <= i <= longer,
                p < i32::MAX,
                block_lengths@ == part1 + Seq::new(i as nat, |j: int| (p + 1) as i32),
            decreases longer - i,
        {
            block_lengths.push(p + 1);
            i = i + 1;
            assert(block_lengths@ =~= part1 + Seq::new(i as nat, |j: int| (p + 1) as i32));
        }
        block_lengths.push(big_l);
        let ghost part3 = block_lengths@;
        let gaps: usize = ls.len() - 1;
        let mut j: usize = 0;
        while j < gaps
            invariant
                0 <= j <= gaps,
                gaps + 1 == ls.len(),
                ls@.map_values(|x: i32| x as int) == sl,
                forall|a: int, b: int| 0 <= a < b < sl.len() ==> 0 < #[trigger] sl[a] < #[trigger] sl[b] <= patt_len + 1,
                block_lengths@ == part3 + Seq::new(
                    j as nat,
                    |m: int| (sl[m + 1] - sl[m]) as i32,
                ),
            decreases gaps - j,
        {
            assert(sl[j as int] == ls@[j as int] as int);
            assert(sl[j + 1] == ls@[j + 1] as int);
            block_lengths.push(ls[j + 1] - ls[j]);
            j = j + 1;
            assert(block_lengths@ =~= part3 + Seq::new(
                j as nat,
                |m: int| (sl[m + 1] - sl[m]) as i32,
            ));
        }
        assert(block_lengths@ =~= goal);
        block_lengths
    }
}

/// Every step lies in the range asked for and grows the rounded error count;
/// the steps increase strictly.
pub proof fn lemma_steps_range(e: ErrorRate, from: int, to: int)
    ensures
        forall|i: int|
            0 <= i < steps(e, from, to).len() ==> from <= #[trigger] steps(e, from, to)[i] <= to
                && is_step(e, steps(e, from, to)[i]),
        forall|i: int, j: int|
            0 <= i < j < steps(e, from, to).len() ==> #[trigger] steps(e, from, to)[i]
                < #[trigger] steps(e, from, to)[j],
        steps(e, from, to).len() <= to - from + 1 || to < from,
    decreases to - from + 1,
{
    if to >= from {
        lemma_steps_range(e, from, to - 1);
    }
}

/// The step lengths start at or behind the threshold, increase strictly and
/// end with `patt_len + 1`.
pub proof fn lemma_steps_shape(e: ErrorRate, thresh: int, patt_len: int)
    requires
        1 <= thresh <= patt_len,
    ensures
        ({
            let sl = step_lengths(e, thresh, patt_len);
            &&& sl.len() >= 1
            &&& sl.len() <= patt_len - thresh + 2
            &&& thresh <= sl[0] <= patt_len + 1
            &&& sl[sl.len() - 1] == patt_len + 1
            &&& forall|a: int, b: int|
                0 <= a < b < sl.len() ==> 0 < #[trigger] sl[a] < #[trigger] sl[b] <= patt_len + 1
        }),
{
    lemma_steps_range(e, thresh, patt_len);
}

/// The pieces before the first step fit: the L block reaches back to the
/// threshold without leaving the pattern, and what is left before it is
/// shared out among `k - 1` blocks that differ by at most one symbol.
pub proof fn lemma_prior_shape(e: ErrorRate, l0: int, thresh: int, s: int)
    requires
        e.wf(),
        1 <= thresh <= l0,
        s >= 1,
    ensures
        ({
            let k = prior_block_count(e, l0, s);
            let big_l = l_block_len(l0, thresh, k);
            let p = short_block_len(l0, big_l, k);
            let longer = longer_block_count(l0, big_l, k);
            &&& s <= k <= l0 + s
            &&& ceil_div(l0 - 1, k) == (l0 - 1 + (k - 1)) / k
            &&& 0 <= ceil_div(l0 - 1, k) <= l0 - 1
            &&& l0 - thresh <= big_l <= l0 - 1
            &&& 0 <= p <= l0 - 1 - big_l
            &&& 0 <= longer <= k - 1
            &&& k > 1 ==> longer < k - 1
            &&& (k - 1 - longer) * p + longer * (p + 1) == l0 - 1 - big_l
        }),
{
    lemma_rate_ceil_bounds(e, l0);
    let k = prior_block_count(e, l0, s);
    let big_l = l_block_len(l0, thresh, k);
    let p = short_block_len(l0, big_l, k);
    let longer = longer_block_count(l0, big_l, k);
    let share = ceil_div(l0 - 1, k);
    lemma_ceil_div_char(l0 - 1, k, share);
    if share > l0 - 1 {
        assert((share - 1) * k >= l0 - 1) by (nonlinear_arith)
            requires share - 1 >= l0 - 1, k >= 1, l0 >= 1;
    }
    if share < 0 {
        assert(share * k < 0) by (nonlinear_arith)
            requires share < 0, k >= 1;
    }
    let rest = l0 - 1 - big_l;
    if k > 1 {
        vstd::arithmetic::div_mod::lemma_fundamental_div_mod(rest, k - 1);
        vstd::arithmetic::div_mod::lemma_mod_bound(rest, k - 1);
        vstd::arithmetic::div_mod::lemma_div_pos_is_pos(rest, k - 1);
        assert(p * (k - 1) == (k - 1) * p) by (nonlinear_arith);
        assert(longer == rest % (k - 1));
        assert(p <= rest) by (nonlinear_arith)
            requires p * (k - 1) <= rest, k - 1 >= 1, p >= 0;
    } else {
        assert(share == l0 - 1) by {
            lemma_ceil_div_char(l0 - 1, 1, l0 - 1);
        }
        assert(p * (k - 1) == 0) by (nonlinear_arith)
            requires k == 1;
    }
    assert((k - 1 - longer) * p + longer * (p + 1) == l0 - 1 - big_l) by (nonlinear_arith)
        requires longer == rest - p * (k - 1), rest == l0 - 1 - big_l;
}

/// Within a run of equal blocks the starts advance by the common length.
proof fn lemma_start_run(blocks: Seq<i32>, from: int, count: int, v: int, i: int)
    requires
        0 <= from,
        0 <= i <= count,
        from + count <= blocks.len(),
        v >= 0,
        forall|m: int| from <= m < from + count ==> (#[trigger] blocks[m]) as int == v,
    ensures
        block_start(blocks, from + i) == block_start(blocks, from) + i * v,
    decreases i,
{
    if i > 0 {
        lemma_start_run(blocks, from, count, v, i - 1);
        assert(blocks[from + i - 1] as int == v);
        assert(i * v == (i - 1) * v + v) by (nonlinear_arith);
    } else {
        assert(i * v == 0) by (nonlinear_arith)
            requires i == 0;
    }
}

/// Behind the L block every block ends just before the next step.
proof fn lemma_start_gaps(blocks: Seq<i32>, k: int, sl: Seq<int>, j: int)
    requires
        0 <= k,
        0 <= j < sl.len(),
        k + sl.len() - 1 == blocks.len(),
        block_start(blocks, k) == sl[0] - 1,
        forall|i: int|
            k <= i < blocks.len() ==> (#[trigger] blocks[i]) as int == sl[i - k + 1] - sl[i - k],
        forall|a: int, b: int| 0 <= a < b < sl.len() ==> #[trigger] sl[a] < #[trigger] sl[b],
    ensures
        block_start(blocks, k + j) == sl[j] - 1,
    decreases j,
{
    if j > 0 {
        lemma_start_gaps(blocks, k, sl, j - 1);
        assert(blocks[k + j - 1] as int == sl[j] - sl[j - 1]);
        assert(sl[j - 1] < sl[j]);
    }
}

/// Where the blocks of the balanced-block scheme start: the L block ends
/// just before the first step, every later block just before the next step,
/// and together the blocks cover the pattern exactly.
pub proof fn lemma_kucherov_layout(patt_len: int, e: ErrorRate, thresh: int, s: int)
    requires
        e.wf(),
        1 <= thresh <= patt_len,
        s >= 1,
        patt_len + s < i32::MAX,
    ensures
        ({
            let blocks = kucherov_blocks(patt_len, e, thresh, s);
            let sl = step_lengths(e, thresh, patt_len);
            let k = prior_block_count(e, sl[0], s);
            let big_l = l_block_len(sl[0], thresh, k);
            let p = short_block_len(sl[0], big_l, k);
            let longer = longer_block_count(sl[0], big_l, k);
            &&& blocks.len() == k + sl.len() - 1
            &&& forall|m: int| 0 <= m < k - 1 - longer ==> (#[trigger] blocks[m]) as int == p
            &&& forall|m: int| k - 1 - longer <= m < k - 1 ==> (#[trigger] blocks[m]) as int == p + 1
            &&& blocks[k - 1] as int == big_l
            &&& forall|i: int|
                k <= i < blocks.len() ==> (#[trigger] blocks[i]) as int == sl[i - k + 1] - sl[i - k]
            &&& block_start(blocks, k - 1) == sl[0] - 1 - big_l
            &&& forall|j: int| 0 <= j < sl.len() ==> #[trigger] block_start(blocks, k + j) == sl[j] - 1
            &&& blocks_total(blocks) == patt_len
        }),
{
    let blocks = kucherov_blocks(patt_len, e, thresh, s);
    let sl = step_lengths(e, thresh, patt_len);
    lemma_steps_shape(e, thresh, patt_len);
    let l0 = sl[0];
    lemma_prior_shape(e, l0, thresh, s);
    let k = prior_block_count(e, l0, s);
    let big_l = l_block_len(l0, thresh, k);
    let p = short_block_len(l0, big_l, k);
    let longer = longer_block_count(l0, big_l, k);
    let shorter = k - 1 - longer;
    assert(blocks.len() == k + sl.len() - 1);
    assert forall|m: int| 0 <= m < shorter implies (#[trigger] blocks[m]) as int == p by {}
    assert forall|m: int| shorter <= m < k - 1 implies (#[trigger] blocks[m]) as int == p + 1 by {}
    assert(blocks[k - 1] as int == big_l);
    assert forall|i: int| k <= i < blocks.len() implies (#[trigger] blocks[i]) as int == sl[i - k
        + 1] - sl[i - k] by {
        assert(0 < sl[i - k] < sl[i - k + 1] <= patt_len + 1);
    }
    lemma_start_run(blocks, 0, shorter, p, shorter);
    lemma_start_run(blocks, shorter, longer, p + 1, longer);
    assert(block_start(blocks, k - 1) == shorter * p + longer * (p + 1));
    assert(block_start(blocks, k) == block_start(blocks, k - 1) + block_len(blocks[k - 1]));
    assert forall|j: int| 0 <= j < sl.len() implies #[trigger] block_start(blocks, k + j) == sl[j]
        - 1 by {
        lemma_start_gaps(blocks, k, sl, j);
    }
    assert(block_start(blocks, k + (sl.len() - 1)) == sl[sl.len() - 1] - 1);
}

/// The steps up to `mid` are the first of the steps up to `to`, and all the
/// others lie behind `mid`.
pub proof fn lemma_steps_split(e: ErrorRate, from: int, mid: int, to: int)
    requires
        mid <= to,
    ensures
        steps(e, from, mid).len() <= steps(e, from, to).len(),
        forall|i: int|
            0 <= i < steps(e, from, mid).len() ==> #[trigger] steps(e, from, to)[i] == steps(
                e,
                from,
                mid,
            )[i],
        forall|i: int|
            steps(e, from, mid).len() <= i < steps(e, from, to).len() ==> #[trigger] steps(
                e,
                from,
                to,
            )[i] > mid,
    decreases to - mid,
{
    if mid < to {
        lemma_steps_split(e, from, mid, to - 1);
        if to < from {
            lemma_steps_range(e, from, to - 1);
        }
    }
}

/// From one length to the next the rounded error count grows by at most 1.
pub proof fn lemma_ceil_grows_slowly(e: ErrorRate, len: int)
    requires
        e.wf(),
        len >= 1,
    ensures
        e.ceil_of(len - 1) <= e.ceil_of(len) <= e.ceil_of(len - 1) + 1,
{
    let d = e.den as int;
    let n0 = e.num * (len - 1);
    let n1 = e.num * len;
    assert(n1 == n0 + e.num) by (nonlinear_arith)
        requires n0 == e.num * (len - 1), n1 == e.num * len;
    lemma_div_monotone(n0, n1, d);
    lemma_div_monotone(n1, n0 + d, d);
    lemma_ceil_div_char(n0, d, e.ceil_of(len - 1));
    lemma_ceil_div_char(n0 + d, d, e.ceil_of(len - 1) + 1);
    assert((e.ceil_of(len - 1) + 1) * d == e.ceil_of(len - 1) * d + d) by (nonlinear_arith);
    assert((e.ceil_of(len - 1) + 1 - 1) * d == e.ceil_of(len - 1) * d) by (nonlinear_arith);
    assert((e.ceil_of(len - 1) - 1) * d == e.ceil_of(len - 1) * d - d) by (nonlinear_arith);
}

/// The rounded error count grows by at most 1 for every step passed.
pub proof fn lemma_ceil_counts_steps(e: ErrorRate, from: int, to: int)
    requires
        e.wf(),
        1 <= from <= to + 1,
    ensures
        e.ceil_of(from - 1) <= e.ceil_of(to) <= e.ceil_of(from - 1) + steps(e, from, to).len(),
    decreases to - from + 1,
{
    if to >= from {
        lemma_ceil_counts_steps(e, from, to - 1);
        lemma_ceil_grows_slowly(e, to);
    }
}

/// Rounded up at a longer length, the error count exceeds what it is rounded
/// down at any shorter one, or both are 0.
pub proof fn lemma_ceil_beats_earlier_floor(e: ErrorRate, len: int, later: int)
    requires
        e.wf(),
        0 <= len < later,
    ensures
        e.floor_of(len) + 1 <= (if e.ceil_of(later) > 1 {
            e.ceil_of(later)
        } else {
            1
        }),
{
    let d = e.den as int;
    let m = e.floor_of(len);
    let q = e.ceil_of(later);
    lemma_rate_floor_bounds(e, len);
    lemma_floor_div_char(e.num * len, d, m);
    lemma_ceil_div_char(e.num * later, d, q);
    if m >= 1 && q <= m {
        assert(m * d >= d) by (nonlinear_arith)
            requires m >= 1, d > 0;
        assert(e.num >= 1) by (nonlinear_arith)
            requires e.num * len >= d, d > 0, len >= 0, e.num >= 0;
        assert(e.num * later >= e.num * len + e.num) by (nonlinear_arith)
            requires later >= len + 1, e.num >= 0;
        assert(q * d <= m * d) by (nonlinear_arith)
            requires q <= m, d > 0;
    }
}

/// The prefix of every admissible overlap reaches into at least `s` blocks
/// more than it may hold errors: for each length from the threshold to the
/// pattern length, the blocks covering it number at least `⌊rate * len⌋ + s`.
pub proof fn lemma_kucherov_cover(patt_len: int, e: ErrorRate, thresh: int, s: int, len: int)
    requires
        e.wf(),
        s >= 1,
        1 <= thresh <= len <= patt_len,
        patt_len + s < i32::MAX,
    ensures
        blocks_covering(kucherov_blocks(patt_len, e, thresh, s), len) >= e.floor_of(len) + s,
        blocks_covering(kucherov_blocks(patt_len, e, thresh, s), len) <= kucherov_blocks(
            patt_len,
            e,
            thresh,
            s,
        ).len(),
{
    let blocks = kucherov_blocks(patt_len, e, thresh, s);
    let sl = step_lengths(e, thresh, patt_len);
    lemma_steps_shape(e, thresh, patt_len);
    lemma_kucherov_layout(patt_len, e, thresh, s);
    let l0 = sl[0];
    lemma_prior_shape(e, l0, thresh, s);
    let k = prior_block_count(e, l0, s);
    let big_l = l_block_len(l0, thresh, k);
    let passed = steps(e, thresh, len);
    let all = steps(e, thresh, patt_len);
    let c = passed.len() as int;
    lemma_steps_split(e, thresh, len, patt_len);
    lemma_steps_range(e, thresh, len);
    lemma_steps_range(e, thresh, patt_len);
    lemma_rate_floor_bounds(e, len);
    if c == 0 {
        assert(len < l0) by {
            if all.len() > 0 {
                assert(all[0] > len);
                assert(sl[0] == all[0]);
            }
        }
        assert(block_start(blocks, k + 0) == sl[0] - 1);
        lemma_block_id_unique(blocks, len - 1, k - 1);
        lemma_ceil_beats_earlier_floor(e, len, l0);
    } else {
        let j = c - 1;
        assert(sl[j] == passed[j]);
        assert(sl[j] <= len);
        assert(sl[j + 1] > len) by {
            if j + 1 < all.len() {
                assert(all[j + 1] > len);
                assert(sl[j + 1] == all[j + 1]);
            }
        }
        assert(block_start(blocks, k + j) == sl[j] - 1);
        assert(block_start(blocks, k + (j + 1)) == sl[j + 1] - 1);
        lemma_block_id_unique(blocks, len - 1, k + j);
        assert(sl[0] == all[0]);
        assert(is_step(e, l0));
        lemma_ceil_counts_steps(e, thresh, l0 - 1);
        lemma_ceil_counts_steps(e, thresh, len);
    }
}

/// Block lengths are well-formed: they sum to the pattern length, and none
/// is empty exactly when neither the L block nor the shorter blocks before it
/// come out empty (the threshold is large enough to give each of the first
/// `k` blocks a symbol).
pub proof fn lemma_kucherov_well_formed(patt_len: int, e: ErrorRate, thresh: int, s: int)
    requires
        e.wf(),
        s >= 1,
        thresh >= 1,
        0 <= patt_len,
        patt_len + s < i32::MAX,
    ensures
        blocks_total(kucherov_blocks(patt_len, e, thresh, s)) == patt_len,
        patt_len < thresh ==> (all_positive(kucherov_blocks(patt_len, e, thresh, s)) <==> patt_len
            > 0),
        patt_len >= thresh ==> ({
            let l0 = step_lengths(e, thresh, patt_len)[0];
            let k = prior_block_count(e, l0, s);
            let big_l = l_block_len(l0, thresh, k);
            all_positive(kucherov_blocks(patt_len, e, thresh, s)) <==> (big_l >= 1 && (k == 1
                || short_block_len(l0, big_l, k) >= 1))
        }),
{
    let blocks = kucherov_blocks(patt_len, e, thresh, s);
    if patt_len < thresh {
        assert(blocks[0] == patt_len);
        assert(block_start(blocks, 1) == block_start(blocks, 0) + block_len(blocks[0]));
    } else {
        let sl = step_lengths(e, thresh, patt_len);
        lemma_steps_shape(e, thresh, patt_len);
        lemma_kucherov_layout(patt_len, e, thresh, s);
        let l0 = sl[0];
        lemma_prior_shape(e, l0, thresh, s);
        let k = prior_block_count(e, l0, s);
        let big_l = l_block_len(l0, thresh, k);
        let p = short_block_len(l0, big_l, k);
        let longer = longer_block_count(l0, big_l, k);
        if big_l >= 1 && (k == 1 || p >= 1) {
            assert forall|i: int| 0 <= i < blocks.len() implies #[trigger] blocks[i] > 0 by {
                if i < k - 1 - longer {
                    assert(blocks[i] as int == p);
                } else if i < k - 1 {
                    assert(blocks[i] as int == p + 1);
                } else if i == k - 1 {
                } else {
                    let m = i - k;
                    assert(blocks[i] as int == sl[m + 1] - sl[m]);
                    assert(0 < sl[m] < sl[m + 1] <= patt_len + 1);
                }
            }
        }
        if all_positive(blocks) {
            assert(blocks[k - 1] > 0);
            if k > 1 {
                assert(blocks[0] > 0);
                assert(blocks[0] as int == p);
            }
        }
    }
}

/// The filter is monotone: completing more blocks never permits fewer errors.
pub proof fn lemma_kucherov_filter_monotone(mode: KucherovMode, c1: int, c2: int, patt_blocks: int)
    requires
        c1 <= c2,
    ensures
        mode.spec_filter(c1, patt_blocks) <= mode.spec_filter(c2, patt_blocks),
{
}

/// The filter is lossless on whole blocks: for each length from the
/// threshold to the pattern length, the blocks that lie entirely within that
/// length permit at least `⌊rate * len⌋` errors.
pub proof fn lemma_kucherov_filter_lossless(
    mode: KucherovMode,
    patt_len: int,
    e: ErrorRate,
    thresh: int,
    len: int,
)
    requires
        mode.wf(),
        e.wf(),
        1 <= thresh <= len <= patt_len,
        patt_len + mode.s_param < i32::MAX,
    ensures
        ({
            let blocks = kucherov_blocks(patt_len, e, thresh, mode.s_param as int);
            mode.spec_filter(whole_blocks_within(blocks, len), blocks.len() as int) >= e.floor_of(
                len,
            )
        }),
{
    let s = mode.s_param as int;
    let blocks = kucherov_blocks(patt_len, e, thresh, s);
    let sl = step_lengths(e, thresh, patt_len);
    lemma_steps_shape(e, thresh, patt_len);
    lemma_kucherov_layout(patt_len, e, thresh, s);
    lemma_kucherov_cover(patt_len, e, thresh, s, len);
    let l0 = sl[0];
    lemma_prior_shape(e, l0, thresh, s);
    let k = prior_block_count(e, l0, s);
    let all = steps(e, thresh, patt_len);
    lemma_steps_range(e, thresh, patt_len);
    // the blocks beyond the reserved ones permit enough
    lemma_rate_floor_bounds(e, len);
    lemma_rate_floor_bounds(e, patt_len);
    assert(e.num * len <= e.num * patt_len) by (nonlinear_arith)
        requires len <= patt_len, e.num >= 0;
    lemma_div_monotone(e.num * len, e.num * patt_len, e.den as int);
    if all.len() == 0 {
        lemma_ceil_beats_earlier_floor(e, len, l0);
    } else {
        assert(sl[0] == all[0]);
        assert(is_step(e, l0));
        lemma_ceil_counts_steps(e, thresh, l0 - 1);
        lemma_ceil_counts_steps(e, thresh, patt_len);
    }
    assert(blocks.len() - s >= e.floor_of(len));
    // the whole blocks within `len` are all but at most one of those covering it
    if len < patt_len {
        lemma_block_id_monotone(blocks, len - 1, len);
    } else {
        lemma_block_id_past_end(blocks, len);
    }
}

/// Once as many blocks are complete as cover the length, the filter permits
/// `⌊rate * len⌋ + s - 1` errors exactly when the blocks beyond the `s`
/// reserved ones are that many.
pub proof fn lemma_kucherov_filter_covering(
    mode: KucherovMode,
    patt_len: int,
    e: ErrorRate,
    thresh: int,
    len: int,
)
    requires
        mode.wf(),
        e.wf(),
        1 <= thresh <= len <= patt_len,
        patt_len + mode.s_param < i32::MAX,
    ensures
        ({
            let blocks = kucherov_blocks(patt_len, e, thresh, mode.s_param as int);
            mode.spec_filter(blocks_covering(blocks, len), blocks.len() as int) >= e.floor_of(len)
                + mode.s_param - 1 <==> blocks.len() - mode.s_param >= e.floor_of(len)
                + mode.s_param - 1
        }),
{
    lemma_kucherov_cover(patt_len, e, thresh, mode.s_param as int, len);
}

/// The blocks of the balanced-block scheme cover the pattern, none has a
/// negative length, and there are at most `2 * patt_len + s + 2` of them.
pub proof fn lemma_kucherov_blocks_shape(patt_len: int, e: ErrorRate, thresh: int, s: int)
    requires
        e.wf(),
        s >= 1,
        thresh >= 1,
        0 <= patt_len,
        patt_len + s < i32::MAX,
    ensures
        blocks_total(kucherov_blocks(patt_len, e, thresh, s)) == patt_len,
        forall|i: int|
            0 <= i < kucherov_blocks(patt_len, e, thresh, s).len() ==> #[trigger] kucherov_blocks(
                patt_len,
                e,
                thresh,
                s,
            )[i] >= 0,
        1 <= kucherov_blocks(patt_len, e, thresh, s).len() <= 2 * patt_len + s + 2,
{
    let blocks = kucherov_blocks(patt_len, e, thresh, s);
    lemma_kucherov_well_formed(patt_len, e, thresh, s);
    if patt_len >= thresh {
        let sl = step_lengths(e, thresh, patt_len);
        lemma_steps_shape(e, thresh, patt_len);
        lemma_kucherov_layout(patt_len, e, thresh, s);
        let l0 = sl[0];
        lemma_prior_shape(e, l0, thresh, s);
        let k = prior_block_count(e, l0, s);
        let big_l = l_block_len(l0, thresh, k);
        let p = short_block_len(l0, big_l, k);
        let longer = longer_block_count(l0, big_l, k);
        assert forall|i: int| 0 <= i < blocks.len() implies #[trigger] blocks[i] >= 0 by {
            if i < k - 1 - longer {
                assert(blocks[i] as int == p);
            } else if i < k - 1 {
                assert(blocks[i] as int == p + 1);
            } else if i == k - 1 {
            } else {
                let m = i - k;
                assert(blocks[i] as int == sl[m + 1] - sl[m]);
                assert(0 < sl[m] < sl[m + 1] <= patt_len + 1);
            }
        }
    }
}

} // verus!
