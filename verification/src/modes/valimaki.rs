//! The equal-block scheme.
//!
//! An overlap of length `l` with at most `⌈rate * l⌉` errors, cut into
//! `⌈rate * l⌉ + 1` pieces, has a piece without error. The scheme takes the
//! smallest such piece length over all admissible overlap lengths as the
//! length of every block; only the last block may be shorter.

use vstd::prelude::*;
use vstd::arithmetic::div_mod::{
    lemma_div_is_ordered,
    lemma_div_pos_is_pos,
    lemma_fundamental_div_mod,
    lemma_mod_bound,
};
use crate::rate::{
    ceil_div,
    lemma_ceil_div_char,
    lemma_floor_div_char,
    lemma_rate_ceil_bounds,
    lemma_rate_floor_bounds,
    ErrorRate,
};
use crate::modes::{
    all_positive,
    block_len,
    block_start,
    blocks_covering,
    blocks_total,
    lemma_block_id_past_end,
    lemma_block_id_unique,
    whole_blocks_within,
};

verus! {

/// The equal-block scheme. It has no parameter.
#[derive(Debug, Clone, Copy)]
pub struct ValimakiMode;

/// The piece length for overlaps of length `len`:
/// `⌈len / (⌈rate * len⌉ + 1)⌉`.
pub open spec fn piece_len(e: ErrorRate, len: int) -> int {
    ceil_div(len, e.ceil_of(len) + 1)
}

/// The smallest piece length over the overlap lengths `from ..= to`.
pub open spec fn min_piece_len(e: ErrorRate, from: int, to: int) -> int
    decreases to - from,
{
    if to <= from {
        piece_len(e, from)
    } else {
        let rest = min_piece_len(e, from, to - 1);
        if piece_len(e, to) < rest {
            piece_len(e, to)
        } else {
            rest
        }
    }
}

/// A pattern of `total` symbols cut into blocks of `p` symbols, the last
/// block holding what is left.
pub open spec fn equal_blocks(total: int, p: int) -> Seq<i32> {
    Seq::new(
        ceil_div(total, p) as nat,
        |i: int|
            if total - i * p < p {
                (total - i * p) as i32
            } else {
                p as i32
            },
    )
}

/// The block lengths of the equal-block scheme. A pattern below the
/// threshold stays in one block.
pub open spec fn valimaki_blocks(patt_len: int, e: ErrorRate, thresh: int) -> Seq<i32> {
    if patt_len < thresh {
        seq![patt_len as i32]
    } else {
        equal_blocks(patt_len, min_piece_len(e, thresh, patt_len))
    }
}

/// One error per completed block and one more; the filter that starts at the
/// first block gets another one on top.
pub open spec fn valimaki_filter(completed_blocks: int, blind_blocks: int) -> int {
    if blind_blocks == 0 {
        completed_blocks + 2
    } else {
        completed_blocks + 1
    }
}

/// The overlap is long enough and at least one block is complete.
pub open spec fn valimaki_condition(
    generous_overlap_len: int,
    completed_blocks: int,
    thresh: int,
) -> bool {
    generous_overlap_len >= thresh && completed_blocks > 0
}

/// `⌈len / (⌈rate * len⌉ + 1)⌉`, computed.
pub fn compute_piece_len(err_rate: ErrorRate, len: i32) -> (r: i32)
    requires
        err_rate.wf(),
        len >= 1,
    ensures
        r as int == piece_len(err_rate, len as int),
        1 <= r <= len,
{
    let pieces: i64 = err_rate.ceil_mul(len as u32) as i64 + 1;
    proof {
        lemma_piece_len_bounds(err_rate, len as int);
    }
    ((len as i64 + (pieces - 1)) / pieces) as i32
}

/// The smallest piece length over the overlap lengths from the threshold to
/// the pattern length, computed.
pub fn compute_block_size(err_rate: ErrorRate, patt_len: i32, thresh: i32) -> (p: i32)
    requires
        err_rate.wf(),
        1 <= thresh <= patt_len,
    ensures
        p as int == min_piece_len(err_rate, thresh as int, patt_len as int),
        1 <= p <= patt_len,
{
    let mut p: i32 = compute_piece_len(err_rate, thresh);
    let mut l: i32 = thresh;
    while l < patt_len
        invariant
            err_rate.wf(),
            1 <= thresh <= l <= patt_len,
            p as int == min_piece_len(err_rate, thresh as int, l as int),
            1 <= p <= l,
        decreases patt_len - l,
    {
        l = l + 1;
        let one_p: i32 = compute_piece_len(err_rate, l);
        if one_p < p {
            p = one_p;
        }
    }
    p
}

/// Cuts `patt_len` symbols into blocks of `p` symbols; the last block holds
/// what is left.
pub fn cut_equal_blocks(patt_len: i32, p: i32) -> (r: Vec<i32>)
    requires
        patt_len >= 0,
        p >= 1,
    ensures
        r@ == equal_blocks(patt_len as int, p as int),
{
    let mut remain: i32 = patt_len;
    let mut block_lengths: Vec<i32> = Vec::new();
    let ghost goal = equal_blocks(patt_len as int, p as int);
    proof {
        lemma_equal_blocks_count(patt_len as int, p as int);
    }
    while remain > 0
        invariant
            p >= 1,
            0 <= remain <= patt_len,
            goal == equal_blocks(patt_len as int, p as int),
            block_lengths@.len() <= goal.len(),
            remain == patt_len - block_lengths@.len() * p || (remain == 0 && block_lengths@.len()
                == goal.len()),
            remain > 0 ==> block_lengths@.len() < goal.len(),
            remain == 0 ==> block_lengths@.len() == goal.len(),
            block_lengths@ == goal.take(block_lengths@.len() as int),
            (goal.len() - 1) * p < patt_len <= goal.len() * p || patt_len == 0,
        decreases remain,
    {
        let ghost i = block_lengths@.len() as int;
        let next: i32 = if remain < p {
            remain
        } else {
            p
        };
        assert(remain == patt_len - i * p);
        block_lengths.push(next);
        remain = remain - next;
        proof {
            assert((i + 1) * p == i * p + p) by (nonlinear_arith);
            assert(goal[i] == next);
            assert(block_lengths@ =~= goal.take(i + 1));
            if remain > 0 {
                if i + 1 >= goal.len() {
                    assert((i + 1) * p >= goal.len() * p) by (nonlinear_arith)
                        requires i + 1 >= goal.len(), p >= 1;
                }
            } else {
                if i + 1 < goal.len() {
                    assert((i + 1) * p <= (goal.len() - 1) * p) by (nonlinear_arith)
                        requires i + 1 <= goal.len() - 1, p >= 1;
                }
            }
        }
    }
    assert(block_lengths@ =~= goal);
    block_lengths
}

impl ValimakiMode {
    pub fn new() -> (r: Self) {
        ValimakiMode
    }

    /// By how many blocks the prefix of an admissible overlap exceeds its
    /// number of allowed errors.
    #[inline]
    pub fn get_guaranteed_extra_blocks(&self) -> (r: i32)
        ensures
            r == 1,
    {
        1
    }

    /// The shortest suffix of the block sequence that is searched as a filter.
    pub fn get_fewest_suff_blocks(&self) -> (r: i32)
        ensures
            r == 1,
    {
        1
    }

    /// The number of errors permitted once `completed_blocks` blocks have been
    /// matched.
    #[inline]
    pub fn filter_func(&self, completed_blocks: i32, patt_blocks: i32, blind_blocks: i32) -> (r:
        i32)
        requires
            completed_blocks + 2 <= i32::MAX,
        ensures
            r as int == valimaki_filter(completed_blocks as int, blind_blocks as int),
    {
        if blind_blocks == 0 {
            completed_blocks + 1 + 1
        } else {
            completed_blocks + 1
        }
    }

    /// Cuts a pattern of `patt_len` symbols into blocks.
    #[inline]
    pub fn get_block_lengths(&self, patt_len: i32, err_rate: ErrorRate, thresh: i32) -> (r: Vec<
        i32,
    >)
        requires
            err_rate.wf(),
            patt_len >= 0,
            thresh >= 1,
        ensures
            r@ == valimaki_blocks(patt_len as int, err_rate, thresh as int),
    {
        if patt_len < thresh {
            let mut ps: Vec<i32> = Vec::new();
            ps.push(patt_len);
            assert(ps@ =~= seq![patt_len]);
            return ps;
        }
        let p: i32 = compute_block_size(err_rate, patt_len, thresh);
        cut_equal_blocks(patt_len, p)
    }

    /// Whether a search node may emit candidates.
    #[inline]
    pub fn candidate_condition(
        &self,
        generous_overlap_len: i32,
        completed_blocks: i32,
        thresh: i32,
        errors: i32,
    ) -> (r: bool)
        ensures
            r == valimaki_condition(
                generous_overlap_len as int,
                completed_blocks as int,
                thresh as int,
            ),
    {
        let c1 = generous_overlap_len >= thresh;
        let c2 = completed_blocks > 0;
        c1 && c2
    }
}

/// A piece holds at least one symbol and at most the whole overlap.
pub proof fn lemma_piece_len_bounds(e: ErrorRate, len: int)
    requires
        e.wf(),
        len >= 1,
    ensures
        1 <= piece_len(e, len) <= len,
        1 <= e.ceil_of(len) + 1 <= len + 1,
{
    lemma_rate_ceil_bounds(e, len);
    let m = e.ceil_of(len) + 1;
    let q = piece_len(e, len);
    lemma_ceil_div_char(len, m, q);
    if q > len {
        assert((q - 1) * m >= len) by (nonlinear_arith)
            requires q - 1 >= len, m >= 1, len >= 1;
    }
    if q < 1 {
        assert(q * m <= 0) by (nonlinear_arith)
            requires q <= 0, m >= 1;
    }
}

/// The block size is a piece length of some admissible overlap length, and
/// no admissible overlap length has a smaller one.
pub proof fn lemma_min_piece_len(e: ErrorRate, from: int, to: int)
    requires
        e.wf(),
        1 <= from <= to,
    ensures
        1 <= min_piece_len(e, from, to) <= from,
        forall|l: int| from <= l <= to ==> min_piece_len(e, from, to) <= #[trigger] piece_len(e, l),
        exists|l: int| from <= l <= to && min_piece_len(e, from, to) == #[trigger] piece_len(e, l),
    decreases to - from,
{
    lemma_piece_len_bounds(e, from);
    if to > from {
        lemma_min_piece_len(e, from, to - 1);
        lemma_piece_len_bounds(e, to);
        let w = choose|l: int|
            from <= l <= to - 1 && min_piece_len(e, from, to - 1) == #[trigger] piece_len(e, l);
        if piece_len(e, to) < min_piece_len(e, from, to - 1) {
            assert(min_piece_len(e, from, to) == piece_len(e, to));
        } else {
            assert(min_piece_len(e, from, to) == piece_len(e, w));
        }
    } else {
        assert(min_piece_len(e, from, to) == piece_len(e, from));
    }
}

/// `⌈total / p⌉` blocks are needed, and one fewer would not do.
pub proof fn lemma_equal_blocks_count(total: int, p: int)
    requires
        total >= 0,
        p >= 1,
    ensures
        equal_blocks(total, p).len() == ceil_div(total, p),
        ceil_div(total, p) >= 0,
        (ceil_div(total, p) - 1) * p < total <= ceil_div(total, p) * p,
        total == 0 <==> ceil_div(total, p) == 0,
{
    let n = ceil_div(total, p);
    lemma_ceil_div_char(total, p, n);
    if n < 0 {
        assert(n * p < 0) by (nonlinear_arith)
            requires n < 0, p >= 1;
    }
    if n == 0 {
        assert(n * p == 0) by (nonlinear_arith)
            requires n == 0;
    }
    if total == 0 && n >= 1 {
        assert((n - 1) * p >= 0) by (nonlinear_arith)
            requires n >= 1, p >= 1;
    }
}

/// Block `i` of an equal cut starts at `i * p`.
pub proof fn lemma_equal_blocks_start(total: int, p: int, i: int)
    requires
        0 <= total <= i32::MAX,
        1 <= p <= i32::MAX,
        0 <= i <= ceil_div(total, p),
    ensures
        i < ceil_div(total, p) ==> block_start(equal_blocks(total, p), i) == i * p,
        i == ceil_div(total, p) ==> block_start(equal_blocks(total, p), i) == total,
        i < ceil_div(total, p) ==> equal_blocks(total, p)[i] > 0,
    decreases i,
{
    let blocks = equal_blocks(total, p);
    let n = ceil_div(total, p);
    lemma_equal_blocks_count(total, p);
    if i > 0 {
        lemma_equal_blocks_start(total, p, i - 1);
        assert(i * p == (i - 1) * p + p) by (nonlinear_arith);
        assert((i - 1) * p <= (n - 1) * p) by (nonlinear_arith)
            requires i - 1 <= n - 1, p >= 1;
        if i < n {
            assert(i * p <= (n - 1) * p) by (nonlinear_arith)
                requires i <= n - 1, p >= 1;
        }
    } else {
        assert(i * p == 0) by (nonlinear_arith)
            requires i == 0;
    }
    if i < n {
        assert(i * p <= (n - 1) * p) by (nonlinear_arith)
            requires i <= n - 1, p >= 1;
    }
}

/// In an equal cut the symbol at `offset` lies in block `offset / p`, so the
/// first `len` symbols reach into `⌈len / p⌉` blocks.
pub proof fn lemma_equal_blocks_covering(total: int, p: int, len: int)
    requires
        0 <= total <= i32::MAX,
        1 <= p <= i32::MAX,
        1 <= len <= total,
    ensures
        blocks_covering(equal_blocks(total, p), len) == ceil_div(len, p),
        blocks_covering(equal_blocks(total, p), len) == (len - 1) / p + 1,
        blocks_covering(equal_blocks(total, p), len) <= equal_blocks(total, p).len(),
{
    let blocks = equal_blocks(total, p);
    let n = ceil_div(total, p);
    let i = (len - 1) / p;
    lemma_equal_blocks_count(total, p);
    lemma_fundamental_div_mod(len - 1, p);
    lemma_mod_bound(len - 1, p);
    lemma_div_pos_is_pos(len - 1, p);
    assert(p * i == i * p) by (nonlinear_arith);
    assert((i + 1) * p == i * p + p) by (nonlinear_arith);
    assert(i * p <= len - 1 < (i + 1) * p);
    if i >= n {
        assert(i * p >= n * p) by (nonlinear_arith)
            requires i >= n, p >= 1;
    }
    lemma_equal_blocks_start(total, p, i);
    lemma_equal_blocks_start(total, p, i + 1);
    lemma_block_id_unique(blocks, len - 1, i);
    lemma_ceil_div_char(len, p, i + 1);
}

/// Block lengths are well-formed: they sum to the pattern length, and none
/// is empty unless the pattern itself is empty.
pub proof fn lemma_valimaki_well_formed(patt_len: int, e: ErrorRate, thresh: int)
    requires
        e.wf(),
        thresh >= 1,
        0 <= patt_len <= i32::MAX,
    ensures
        blocks_total(valimaki_blocks(patt_len, e, thresh)) == patt_len,
        all_positive(valimaki_blocks(patt_len, e, thresh)) <==> patt_len > 0,
{
    let blocks = valimaki_blocks(patt_len, e, thresh);
    if patt_len < thresh {
        assert(blocks[0] == patt_len);
        assert(block_start(blocks, 1) == block_start(blocks, 0) + block_len(blocks[0]));
    } else {
        lemma_min_piece_len(e, thresh, patt_len);
        let p = min_piece_len(e, thresh, patt_len);
        lemma_equal_blocks_count(patt_len, p);
        lemma_equal_blocks_start(patt_len, p, ceil_div(patt_len, p));
        assert forall|i: int| 0 <= i < blocks.len() implies #[trigger] blocks[i] > 0 by {
            lemma_equal_blocks_start(patt_len, p, i);
        }
    }
}

/// The first `len` symbols reach into `⌈len / p⌉` blocks, `p` being the block
/// size. That is at least one more than the `⌊rate * len⌋` errors allowed
/// exactly when `p * ⌊rate * len⌋ < len`.
pub proof fn lemma_valimaki_cover(patt_len: int, e: ErrorRate, thresh: int, len: int)
    requires
        e.wf(),
        1 <= thresh <= len <= patt_len <= i32::MAX,
    ensures
        ({
            let blocks = valimaki_blocks(patt_len, e, thresh);
            let p = min_piece_len(e, thresh, patt_len);
            &&& blocks_covering(blocks, len) == ceil_div(len, p)
            &&& blocks_covering(blocks, len) <= blocks.len()
            &&& (blocks_covering(blocks, len) >= e.floor_of(len) + 1 <==> p * e.floor_of(len)
                < len)
        }),
{
    let p = min_piece_len(e, thresh, patt_len);
    let m = e.floor_of(len);
    lemma_min_piece_len(e, thresh, patt_len);
    lemma_equal_blocks_covering(patt_len, p, len);
    lemma_rate_floor_bounds(e, len);
    lemma_floor_div_char(len - 1, p, (len - 1) / p);
    let q = (len - 1) / p;
    assert(p * m == m * p) by (nonlinear_arith);
    if q >= m {
        assert(m * p <= q * p) by (nonlinear_arith)
            requires m <= q, p >= 1;
    } else {
        assert((q + 1) * p <= m * p) by (nonlinear_arith)
            requires q + 1 <= m, p >= 1;
    }
}

/// Where the block size times the rate stays below 1, the prefix of every
/// admissible overlap reaches into more blocks than it may hold errors.
pub proof fn lemma_valimaki_cover_small_blocks(
    patt_len: int,
    e: ErrorRate,
    thresh: int,
    len: int,
)
    requires
        e.wf(),
        1 <= thresh <= len <= patt_len <= i32::MAX,
        min_piece_len(e, thresh, patt_len) * e.num < e.den,
    ensures
        blocks_covering(valimaki_blocks(patt_len, e, thresh), len) >= e.floor_of(len) + 1,
{
    let p = min_piece_len(e, thresh, patt_len);
    let m = e.floor_of(len);
    let d = e.den as int;
    lemma_valimaki_cover(patt_len, e, thresh, len);
    lemma_min_piece_len(e, thresh, patt_len);
    lemma_rate_floor_bounds(e, len);
    lemma_floor_div_char(e.num * len, d, m);
    assert(p * m < len) by (nonlinear_arith)
        requires
            m * d <= e.num * len,
            p * e.num < d,
            p >= 1,
            m >= 0,
            len >= 1,
            d > 0,
            e.num >= 0,
    ;
}

/// The filter is monotone: completing more blocks never permits fewer errors.
pub proof fn lemma_valimaki_filter_monotone(c1: int, c2: int, blind_blocks: int)
    requires
        c1 <= c2,
    ensures
        valimaki_filter(c1, blind_blocks) <= valimaki_filter(c2, blind_blocks),
{
}

/// Once as many blocks are complete as cover the length, the filter permits
/// `⌈len / p⌉ + 1` errors, and one more where it starts at the first block.
/// That covers the `⌊rate * len⌋` errors allowed exactly when it is not
/// less, and it is not less wherever the blocks covering the length
/// outnumber the errors.
pub proof fn lemma_valimaki_filter_covering(
    patt_len: int,
    e: ErrorRate,
    thresh: int,
    len: int,
    blind_blocks: int,
)
    requires
        e.wf(),
        1 <= thresh <= len <= patt_len <= i32::MAX,
    ensures
        ({
            let blocks = valimaki_blocks(patt_len, e, thresh);
            let p = min_piece_len(e, thresh, patt_len);
            let permitted = valimaki_filter(blocks_covering(blocks, len), blind_blocks);
            &&& permitted == ceil_div(len, p) + (if blind_blocks == 0 {
                2int
            } else {
                1int
            })
            &&& p * e.floor_of(len) < len ==> permitted >= e.floor_of(len) + 2
        }),
{
    lemma_valimaki_cover(patt_len, e, thresh, len);
}

/// The blocks that lie entirely within the first `len` symbols number
/// `⌊len / p⌋` (all `⌈patt_len / p⌉` for the whole pattern), and the filter
/// permits one error more than that, or two where it starts at the first
/// block. Wherever the blocks covering the length outnumber the
/// `⌊rate * len⌋` errors allowed, that is more than the errors allowed.
pub proof fn lemma_valimaki_filter_lossless(
    patt_len: int,
    e: ErrorRate,
    thresh: int,
    len: int,
    blind_blocks: int,
)
    requires
        e.wf(),
        1 <= thresh <= len <= patt_len <= i32::MAX,
    ensures
        ({
            let blocks = valimaki_blocks(patt_len, e, thresh);
            let p = min_piece_len(e, thresh, patt_len);
            let whole = whole_blocks_within(blocks, len);
            &&& whole == (if len < patt_len {
                len / p
            } else {
                ceil_div(patt_len, p)
            })
            &&& p * e.floor_of(len) < len ==> valimaki_filter(whole, blind_blocks) >= e.floor_of(
                len,
            ) + 1
        }),
{
    let blocks = valimaki_blocks(patt_len, e, thresh);
    let p = min_piece_len(e, thresh, patt_len);
    lemma_min_piece_len(e, thresh, patt_len);
    lemma_valimaki_cover(patt_len, e, thresh, len);
    lemma_equal_blocks_count(patt_len, p);
    lemma_equal_blocks_covering(patt_len, p, len);
    if len < patt_len {
        lemma_equal_blocks_covering(patt_len, p, len + 1);
        lemma_div_is_ordered(len - 1, len, p);
    } else {
        lemma_equal_blocks_start(patt_len, p, ceil_div(patt_len, p));
        lemma_block_id_past_end(blocks, len);
    }
}

/// The blocks of the equal-block scheme cover the pattern, none has a
/// negative length, and there are at most as many as the pattern has
/// symbols (one for an empty pattern).
pub proof fn lemma_valimaki_blocks_shape(patt_len: int, e: ErrorRate, thresh: int)
    requires
        e.wf(),
        thresh >= 1,
        0 <= patt_len <= i32::MAX,
    ensures
        blocks_total(valimaki_blocks(patt_len, e, thresh)) == patt_len,
        forall|i: int|
            0 <= i < valimaki_blocks(patt_len, e, thresh).len() ==> #[trigger] valimaki_blocks(
                patt_len,
                e,
                thresh,
            )[i] >= 0,
        valimaki_blocks(patt_len, e, thresh).len() <= patt_len + 1,
{
    let blocks = valimaki_blocks(patt_len, e, thresh);
    lemma_valimaki_well_formed(patt_len, e, thresh);
    if patt_len >= thresh {
        lemma_min_piece_len(e, thresh, patt_len);
        let p = min_piece_len(e, thresh, patt_len);
        lemma_equal_blocks_count(patt_len, p);
        let n = ceil_div(patt_len, p);
        if n > patt_len {
            assert((n - 1) * p >= patt_len) by (nonlinear_arith)
                requires n - 1 >= patt_len, p >= 1, patt_len >= 0;
        }
        assert forall|i: int| 0 <= i < blocks.len() implies #[trigger] blocks[i] >= 0 by {
            lemma_equal_blocks_start(patt_len, p, i);
        }
    }
}

} // verus!
