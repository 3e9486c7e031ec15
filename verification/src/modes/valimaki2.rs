//! The equal-block scheme for patterns that reach the threshold.
//!
//! It cuts and filters as [`ValimakiMode`](crate::modes::valimaki::ValimakiMode)
//! does, but takes no pattern below the threshold.

use vstd::prelude::*;
use crate::rate::ErrorRate;
use crate::modes::valimaki::{
    compute_block_size,
    cut_equal_blocks,
    valimaki_blocks,
    valimaki_condition,
    valimaki_filter,
};

verus! {

/// The equal-block scheme, restricted to patterns at least as long as the
/// threshold.
#[derive(Debug, Clone, Copy)]
pub struct Valimaki2Mode;

impl Valimaki2Mode {
    pub fn new() -> (r: Self) {
        Valimaki2Mode
    }

    /// By how many blocks the prefix of an admissible overlap exceeds its
    /// number of allowed errors.
    #[inline]
    pub fn get_guaranteed_extra_blocks(&self) -> (r: i32)
        ensures
            r == 1,
    {
        1
    }

    /// The shortest suffix of the block sequence that is searched as a filter.
    pub fn get_fewest_suff_blocks(&self) -> (r: i32)
        ensures
            r == 1,
    {
        1
    }

    /// The number of errors permitted once `completed_blocks` blocks have been
    /// matched.
    #[inline]
    pub fn filter_func(&self, completed_blocks: i32, patt_blocks: i32, blind_blocks: i32) -> (r:
        i32)
        requires
            completed_blocks + 2 <= i32::MAX,
        ensures
            r as int == valimaki_filter(completed_blocks as int, blind_blocks as int),
    {
        if blind_blocks == 0 {
            completed_blocks + 1 + 1
        } else {
            completed_blocks + 1
        }
    }

    /// Cuts a pattern of `patt_len` symbols into blocks.
    #[inline]
    pub fn get_block_lengths(&self, patt_len: i32, err_rate: ErrorRate, thresh: i32) -> (r: Vec<
        i32,
    >)
        requires
            err_rate.wf(),
            1 <= thresh <= patt_len,
        ensures
            r@ == valimaki_blocks(patt_len as int, err_rate, thresh as int),
    {
        let p: i32 = compute_block_size(err_rate, patt_len, thresh);
        cut_equal_blocks(patt_len, p)
    }

    /// Whether a search node may emit candidates.
    #[inline]
    pub fn candidate_condition(
        &self,
        generous_overlap_len: i32,
        completed_blocks: i32,
        thresh: i32,
        errors: i32,
    ) -> (r: bool)
        ensures
            r == valimaki_condition(
                generous_overlap_len as int,
                completed_blocks as int,
                thresh as int,
            ),
    {
        let c1 = generous_overlap_len >= thresh;
        let c2 = completed_blocks > 0;
        c1 && c2
    }
}

} // verus!
