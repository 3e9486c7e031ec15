//! Partition and filter schemes.
//!
//! A scheme cuts a pattern into consecutive blocks and says how many errors a
//! partial match may hold once a given number of blocks has been matched. The
//! search tries every suffix of the block sequence as a filter of its own; a
//! scheme is lossless when each true overlap survives under at least one of
//! them.

pub mod kucherov;
pub mod valimaki;
pub mod valimaki2;

use vstd::prelude::*;
use vstd::string::StringSliceAdditionalSpecFns;
use crate::rate::ErrorRate;
use crate::modes::kucherov::KucherovMode;
use crate::modes::valimaki::ValimakiMode;
use crate::modes::valimaki2::Valimaki2Mode;
use crate::modes::kucherov::kucherov_blocks;
use crate::modes::valimaki::{valimaki_blocks, valimaki_condition, valimaki_filter};

verus! {

/// The scheme that a run searches with.
#[derive(Debug, Clone, Copy)]
pub enum Mode {
    Kucherov(KucherovMode),
    Valimaki(ValimakiMode),
    Valimaki2(Valimaki2Mode),
}

impl Mode {
    /// The scheme can cut a pattern of this length.
    pub open spec fn accepts(self, patt_len: int, thresh: int) -> bool {
        match self {
            Mode::Kucherov(m) => m.wf() && patt_len + m.s_param < i32::MAX,
            Mode::Valimaki(_) => true,
            Mode::Valimaki2(_) => thresh <= patt_len,
        }
    }

    pub open spec fn spec_blocks(self, patt_len: int, e: ErrorRate, thresh: int) -> Seq<i32> {
        match self {
            Mode::Kucherov(m) => kucherov_blocks(patt_len, e, thresh, m.s_param as int),
            Mode::Valimaki(_) => valimaki_blocks(patt_len, e, thresh),
            Mode::Valimaki2(_) => valimaki_blocks(patt_len, e, thresh),
        }
    }

    pub open spec fn spec_filter(
        self,
        completed_blocks: int,
        patt_blocks: int,
        blind_blocks: int,
    ) -> int {
        match self {
            Mode::Kucherov(m) => m.spec_filter(completed_blocks, patt_blocks),
            Mode::Valimaki(_) => valimaki_filter(completed_blocks, blind_blocks),
            Mode::Valimaki2(_) => valimaki_filter(completed_blocks, blind_blocks),
        }
    }

    pub open spec fn spec_condition(
        self,
        generous_overlap_len: int,
        completed_blocks: int,
        thresh: int,
        errors: int,
    ) -> bool {
        match self {
            Mode::Kucherov(m) => m.spec_condition(
                generous_overlap_len,
                completed_blocks,
                thresh,
                errors,
            ),
            Mode::Valimaki(_) => valimaki_condition(generous_overlap_len, completed_blocks, thresh),
            Mode::Valimaki2(_) => valimaki_condition(generous_overlap_len, completed_blocks, thresh),
        }
    }

    pub open spec fn spec_fewest_suff_blocks(self) -> int {
        match self {
            Mode::Kucherov(m) => m.s_param as int,
            Mode::Valimaki(_) => 1,
            Mode::Valimaki2(_) => 1,
        }
    }

    pub open spec fn spec_guaranteed_extra_blocks(self) -> int {
        match self {
            Mode::Kucherov(m) => m.s_param as int,
            Mode::Valimaki(_) => 1,
            Mode::Valimaki2(_) => 1,
        }
    }

    /// The number of errors permitted once `completed_blocks` blocks of the
    /// current filter have been matched. `patt_blocks` is the number of blocks
    /// of the whole pattern, `blind_blocks` the number of blocks that the
    /// current filter leaves out.
    pub fn filter_func(&self, completed_blocks: i32, patt_blocks: i32, blind_blocks: i32) -> (r:
        i32)
        requires
            match self {
                Mode::Kucherov(m) => patt_blocks - m.s_param >= i32::MIN,
                _ => completed_blocks + 2 <= i32::MAX,
            },
        ensures
            r as int == self.spec_filter(
                completed_blocks as int,
                patt_blocks as int,
                blind_blocks as int,
            ),
    {
        match self {
            Mode::Kucherov(m) => m.filter_func(completed_blocks, patt_blocks, blind_blocks),
            Mode::Valimaki(m) => m.filter_func(completed_blocks, patt_blocks, blind_blocks),
            Mode::Valimaki2(m) => m.filter_func(completed_blocks, patt_blocks, blind_blocks),
        }
    }

    /// Cuts a pattern of `patt_len` symbols into blocks, in pattern order.
    pub fn get_block_lengths(&self, patt_len: i32, err_rate: ErrorRate, thresh: i32) -> (r: Vec<
        i32,
    >)
        requires
            err_rate.wf(),
            patt_len >= 0,
            thresh >= 1,
            self.accepts(patt_len as int, thresh as int),
        ensures
            r@ == self.spec_blocks(patt_len as int, err_rate, thresh as int),
    {
        match self {
            Mode::Kucherov(m) => m.get_block_lengths(patt_len, err_rate, thresh),
            Mode::Valimaki(m) => m.get_block_lengths(patt_len, err_rate, thresh),
            Mode::Valimaki2(m) => m.get_block_lengths(patt_len, err_rate, thresh),
        }
    }

    /// Whether a search node with these properties may emit candidates.
    pub fn candidate_condition(
        &self,
        generous_overlap_len: i32,
        completed_blocks: i32,
        thresh: i32,
        errors: i32,
    ) -> (r: bool)
        ensures
            r == self.spec_condition(
                generous_overlap_len as int,
                completed_blocks as int,
                thresh as int,
                errors as int,
            ),
    {
        match self {
            Mode::Kucherov(m) => m.candidate_condition(
                generous_overlap_len,
                completed_blocks,
                thresh,
                errors,
            ),
            Mode::Valimaki(m) => m.candidate_condition(
                generous_overlap_len,
                completed_blocks,
                thresh,
                errors,
            ),
            Mode::Valimaki2(m) => m.candidate_condition(
                generous_overlap_len,
                completed_blocks,
                thresh,
                errors,
            ),
        }
    }

    /// Only suffixes of the block sequence with at least this many blocks are
    /// searched as filters.
    pub fn get_fewest_suff_blocks(&self) -> (r: i32)
        ensures
            r as int == self.spec_fewest_suff_blocks(),
    {
        match self {
            Mode::Kucherov(m) => m.get_fewest_suff_blocks(),
            Mode::Valimaki(m) => m.get_fewest_suff_blocks(),
            Mode::Valimaki2(m) => m.get_fewest_suff_blocks(),
        }
    }

    /// By how many blocks the prefix of an admissible overlap exceeds its
    /// number of allowed errors.
    pub fn get_guaranteed_extra_blocks(&self) -> (r: i32)
        ensures
            r as int == self.spec_guaranteed_extra_blocks(),
    {
        match self {
            Mode::Kucherov(m) => m.get_guaranteed_extra_blocks(),
            Mode::Valimaki(m) => m.get_guaranteed_extra_blocks(),
            Mode::Valimaki2(m) => m.get_guaranteed_extra_blocks(),
        }
    }
}

/// The byte that separates the name of a scheme from its parameters.
pub const SEPARATOR: u8 = 95;

/// The name `valimaki`.
pub open spec fn valimaki_name() -> Seq<u8> {
    seq![118u8, 97u8, 108u8, 105u8, 109u8, 97u8, 107u8, 105u8]
}

/// The name `kucherov`.
pub open spec fn kucherov_name() -> Seq<u8> {
    seq![107u8, 117u8, 99u8, 104u8, 101u8, 114u8, 111u8, 118u8]
}

/// The length of the token that starts at `from`: the number of bytes up to
/// the next separator or the end.
pub open spec fn token_len(s: Seq<u8>, from: int) -> int
    decreases s.len() - from,
{
    if from >= s.len() || s[from] == SEPARATOR {
        0
    } else {
        1 + token_len(s, from + 1)
    }
}

/// The token that starts at `from`.
pub open spec fn token_at(s: Seq<u8>, from: int) -> Seq<u8> {
    s.subrange(from, from + token_len(s, from))
}

/// The number that a string of decimal digits writes; nothing for the empty
/// string and for a string that holds anything but digits.
pub open spec fn numeral_value(digits: Seq<u8>) -> Option<int>
    decreases digits.len(),
{
    if digits.len() == 0 {
        None
    } else if !(48 <= digits.last() <= 57) {
        None
    } else if digits.len() == 1 {
        Some(digits.last() - 48)
    } else {
        match numeral_value(digits.drop_last()) {
            Some(v) => Some(v * 10 + (digits.last() - 48)),
            None => None,
        }
    }
}

/// The scheme that an option text names.
///
/// The text is cut at every `_`. `valimaki` names the equal-block scheme,
/// whatever follows. `kucherov` with a decimal number from 1 to the largest
/// 32-bit integer as the next token names the balanced-block scheme with
/// that parameter. Everything else names no scheme.
pub open spec fn named_mode(text: Seq<u8>) -> Option<Mode> {
    let name = token_at(text, 0);
    let has_parameter = name.len() < text.len();
    let parameter = numeral_value(token_at(text, name.len() as int + 1));
    if name == valimaki_name() {
        Some(Mode::Valimaki(ValimakiMode))
    } else if name == kucherov_name() && has_parameter && parameter is Some && 1
        <= parameter->0 <= i32::MAX {
        Some(Mode::Kucherov(KucherovMode { s_param: parameter->0 as i32 }))
    } else {
        None
    }
}

/// Where the token that starts at `from` ends.
fn token_end(text: &[u8], from: usize) -> (end: usize)
    requires
        from <= text@.len(),
    ensures
        end == from + token_len(text@, from as int),
        from <= end <= text@.len(),
{
    let mut end: usize = from;
    while end < text.len() && text[end] != SEPARATOR
        invariant
            from <= end <= text@.len(),
            token_len(text@, from as int) == (end - from) + token_len(text@, end as int),
        decreases text@.len() - end,
    {
        end = end + 1;
    }
    end
}

/// Whether the bytes `from .. to` of the text are the given name.
fn token_is(text: &[u8], from: usize, to: usize, name: &Vec<u8>) -> (r: bool)
    requires
        from <= to <= text@.len(),
    ensures
        r == (text@.subrange(from as int, to as int) == name@),
{
    if to - from != name.len() {
        return false;
    }
    let ghost token = text@.subrange(from as int, to as int);
    let mut i: usize = 0;
    while i < name.len()
        invariant
            0 <= i <= name@.len(),
            from <= to <= text@.len(),
            to - from == name@.len(),
            token == text@.subrange(from as int, to as int),
            forall|j: int| 0 <= j < i ==> token[j] == name@[j],
        decreases name@.len() - i,
    {
        if text[from + i] != name[i] {
            assert(token[i as int] != name@[i as int]);
            return false;
        }
        i = i + 1;
    }
    assert(token =~= name@);
    true
}

/// The number that the bytes `from .. to` write in decimal digits, if they
/// do and it is at most the largest 32-bit integer.
fn parse_numeral(text: &[u8], from: usize, to: usize) -> (r: Option<i32>)
    requires
        from <= to <= text@.len(),
    ensures
        r is Some <==> (numeral_value(text@.subrange(from as int, to as int)) is Some
            && numeral_value(text@.subrange(from as int, to as int))->0 <= i32::MAX),
        r matches Some(v) ==> v as int == numeral_value(
            text@.subrange(from as int, to as int),
        )->0,
{
    if from == to {
        return None;
    }
    let ghost digits = text@.subrange(from as int, to as int);
    let mut value: i64 = 0;
    let mut i: usize = from;
    while i < to
        invariant
            from <= i <= to <= text@.len(),
            from < to,
            digits == text@.subrange(from as int, to as int),
            0 <= value <= i32::MAX,
            i > from ==> numeral_value(digits.take(i - from)) == Some(value as int),
            i == from ==> value == 0,
        decreases to - i,
    {
        let b: u8 = text[i];
        proof {
            assert(digits.take(i - from + 1).drop_last() =~= digits.take(i - from));
            assert(digits.take(i - from + 1).last() == b);
        }
        if b < 48 || b > 57 {
            proof {
                lemma_numeral_prefix(digits, i - from + 1);
            }
            return None;
        }
        value = value * 10 + (b - 48) as i64;
        assert(numeral_value(digits.take(i - from + 1)) == Some(value as int));
        if value > i32::MAX as i64 {
            proof {
                lemma_numeral_grows(digits, i - from + 1);
            }
            return None;
        }
        i = i + 1;
    }
    assert(digits.take(to - from) =~= digits);
    Some(value as i32)
}

/// A numeral has only numerals as prefixes.
proof fn lemma_numeral_prefix(digits: Seq<u8>, n: int)
    requires
        1 <= n <= digits.len(),
        numeral_value(digits.take(n)) is None,
    ensures
        numeral_value(digits) is None,
    decreases digits.len() - n,
{
    if n < digits.len() {
        assert(digits.take(n + 1).drop_last() =~= digits.take(n));
        lemma_numeral_prefix(digits, n + 1);
    } else {
        assert(digits.take(n) =~= digits);
    }
}

/// A numeral writes at least as much as each of its prefixes.
proof fn lemma_numeral_grows(digits: Seq<u8>, n: int)
    requires
        1 <= n <= digits.len(),
    ensures
        numeral_value(digits) is Some && numeral_value(digits.take(n)) is Some ==> 0
            <= numeral_value(digits.take(n))->0 <= numeral_value(digits)->0,
    decreases digits.len() - n,
{
    if n < digits.len() {
        assert(digits.take(n + 1).drop_last() =~= digits.take(n));
        lemma_numeral_grows(digits, n + 1);
        lemma_numeral_nonnegative(digits.take(n));
        if numeral_value(digits) is Some && numeral_value(digits.take(n + 1)) is None {
            lemma_numeral_prefix(digits, n + 1);
        }
    } else {
        assert(digits.take(n) =~= digits);
        lemma_numeral_nonnegative(digits);
    }
}

proof fn lemma_numeral_nonnegative(digits: Seq<u8>)
    ensures
        numeral_value(digits) is Some ==> numeral_value(digits)->0 >= 0,
    decreases digits.len(),
{
    if digits.len() > 1 {
        lemma_numeral_nonnegative(digits.drop_last());
    }
}

/// The scheme that an option text names: see [`named_mode`].
pub fn get_mode(arg: &str) -> (r: Option<Mode>)
    ensures
        r == named_mode(arg.spec_bytes()),
{
    let text: &[u8] = arg.as_bytes();
    let name_end: usize = token_end(text, 0);
    let mut valimaki: Vec<u8> = Vec::new();
    valimaki.push(118);
    valimaki.push(97);
    valimaki.push(108);
    valimaki.push(105);
    valimaki.push(109);
    valimaki.push(97);
    valimaki.push(107);
    valimaki.push(105);
    assert(valimaki@ =~= valimaki_name());
    let mut kucherov: Vec<u8> = Vec::new();
    kucherov.push(107);
    kucherov.push(117);
    kucherov.push(99);
    kucherov.push(104);
    kucherov.push(101);
    kucherov.push(114);
    kucherov.push(111);
    kucherov.push(118);
    assert(kucherov@ =~= kucherov_name());
    if token_is(text, 0, name_end, &valimaki) {
        return Some(Mode::Valimaki(ValimakiMode::new()));
    }
    if !token_is(text, 0, name_end, &kucherov) || name_end >= text.len() {
        return None;
    }
    let parameter_end: usize = token_end(text, name_end + 1);
    match parse_numeral(text, name_end + 1, parameter_end) {
        Some(s_param) => {
            if s_param >= 1 {
                Some(Mode::Kucherov(KucherovMode::new(s_param)))
            } else {
                None
            }
        },
        None => None,
    }
}

/// The scheme used where none is named: balanced blocks with `s = 2`.
pub fn default_mode() -> (r: Mode)
    ensures
        r == Mode::Kucherov(KucherovMode { s_param: 2 }),
{
    Mode::Kucherov(KucherovMode::new(2))
}

/// Under every scheme the blocks cover the pattern, none has a negative
/// length, and their number is bounded by the pattern length.
pub proof fn lemma_mode_blocks_shape(mode: Mode, patt_len: int, e: ErrorRate, thresh: int)
    requires
        e.wf(),
        thresh >= 1,
        0 <= patt_len <= i32::MAX,
        mode.accepts(patt_len, thresh),
    ensures
        blocks_total(mode.spec_blocks(patt_len, e, thresh)) == patt_len,
        forall|i: int|
            0 <= i < mode.spec_blocks(patt_len, e, thresh).len() ==> #[trigger] mode.spec_blocks(
                patt_len,
                e,
                thresh,
            )[i] >= 0,
        mode.spec_blocks(patt_len, e, thresh).len() <= 2 * patt_len
            + mode.spec_guaranteed_extra_blocks() + 2,
{
    match mode {
        Mode::Kucherov(m) => {
            crate::modes::kucherov::lemma_kucherov_blocks_shape(
                patt_len,
                e,
                thresh,
                m.s_param as int,
            );
        },
        Mode::Valimaki(_) => {
            crate::modes::valimaki::lemma_valimaki_blocks_shape(patt_len, e, thresh);
        },
        Mode::Valimaki2(_) => {
            crate::modes::valimaki::lemma_valimaki_blocks_shape(patt_len, e, thresh);
        },
    }
}

/// Under every scheme the filter is monotone: completing more blocks never
/// permits fewer errors.
pub proof fn lemma_filter_monotone(mode: Mode, c1: int, c2: int, patt_blocks: int, blind_blocks: int)
    requires
        c1 <= c2,
    ensures
        mode.spec_filter(c1, patt_blocks, blind_blocks) <= mode.spec_filter(
            c2,
            patt_blocks,
            blind_blocks,
        ),
{
}

/// The number of symbols that a block of the given recorded length holds; a
/// negative length counts as empty.
pub open spec fn block_len(b: i32) -> int {
    if b > 0 {
        b as int
    } else {
        0
    }
}

/// The offset at which block `i` starts: the total length of the blocks
/// before it.
pub open spec fn block_start(blocks: Seq<i32>, i: int) -> int
    decreases i,
{
    if i <= 0 {
        0
    } else {
        block_start(blocks, i - 1) + block_len(blocks[i - 1])
    }
}

/// The total length of all blocks.
pub open spec fn blocks_total(blocks: Seq<i32>) -> int {
    block_start(blocks, blocks.len() as int)
}

/// The first block at or behind `i` that ends behind `offset`.
pub open spec fn block_id_from(blocks: Seq<i32>, i: int, offset: int) -> int
    decreases blocks.len() - i,
{
    if i >= blocks.len() {
        i
    } else if offset < block_start(blocks, i + 1) {
        i
    } else {
        block_id_from(blocks, i + 1, offset)
    }
}

/// The 0-based id of the block that holds the symbol at `offset`.
pub open spec fn block_id_at(blocks: Seq<i32>, offset: int) -> int {
    block_id_from(blocks, 0, offset)
}

/// The number of blocks that the first `len` symbols reach into.
pub open spec fn blocks_covering(blocks: Seq<i32>, len: int) -> int {
    block_id_at(blocks, len - 1) + 1
}

/// The number of blocks that lie entirely within the first `len` symbols.
pub open spec fn whole_blocks_within(blocks: Seq<i32>, len: int) -> int {
    block_id_at(blocks, len)
}

/// Every block holds at least one symbol.
pub open spec fn all_positive(blocks: Seq<i32>) -> bool {
    forall|i: int| 0 <= i < blocks.len() ==> #[trigger] blocks[i] > 0
}

/// Block starts never decrease.
pub proof fn lemma_block_start_monotone(blocks: Seq<i32>, i: int, j: int)
    requires
        i <= j,
    ensures
        block_start(blocks, i) <= block_start(blocks, j),
        0 <= block_start(blocks, i),
    decreases j - i, j,
{
    if i < j {
        if j <= 0 {
        } else {
            lemma_block_start_monotone(blocks, i, j - 1);
        }
    } else if i > 0 {
        lemma_block_start_monotone(blocks, i - 1, i - 1);
    }
}

/// A block that starts at or before `offset` and ends behind it is the block
/// of `offset`.
pub proof fn lemma_block_id_unique(blocks: Seq<i32>, offset: int, i: int)
    requires
        0 <= i < blocks.len(),
        block_start(blocks, i) <= offset < block_start(blocks, i + 1),
    ensures
        block_id_at(blocks, offset) == i,
{
    lemma_block_id_scan(blocks, offset, i, 0);
}

proof fn lemma_block_id_scan(blocks: Seq<i32>, offset: int, i: int, from: int)
    requires
        0 <= from <= i < blocks.len(),
        block_start(blocks, i) <= offset < block_start(blocks, i + 1),
    ensures
        block_id_from(blocks, from, offset) == i,
    decreases i - from,
{
    if from < i {
        lemma_block_start_monotone(blocks, from + 1, i);
        lemma_block_id_scan(blocks, offset, i, from + 1);
    }
}

/// The block of an offset inside the partition exists and holds the offset.
pub proof fn lemma_block_id_bounds(blocks: Seq<i32>, offset: int)
    requires
        0 <= offset < blocks_total(blocks),
    ensures
        0 <= block_id_at(blocks, offset) < blocks.len(),
        block_start(blocks, block_id_at(blocks, offset)) <= offset,
        offset < block_start(blocks, block_id_at(blocks, offset) + 1),
{
    lemma_block_id_bounds_from(blocks, offset, 0);
}

proof fn lemma_block_id_bounds_from(blocks: Seq<i32>, offset: int, from: int)
    requires
        0 <= from <= blocks.len(),
        block_start(blocks, from) <= offset < blocks_total(blocks),
    ensures
        from <= block_id_from(blocks, from, offset) < blocks.len(),
        block_start(blocks, block_id_from(blocks, from, offset)) <= offset,
        offset < block_start(blocks, block_id_from(blocks, from, offset) + 1),
    decreases blocks.len() - from,
{
    if from < blocks.len() && offset >= block_start(blocks, from + 1) {
        lemma_block_id_bounds_from(blocks, offset, from + 1);
    }
}

/// Behind the last block the scan reports the number of blocks.
pub proof fn lemma_block_id_past_end(blocks: Seq<i32>, offset: int)
    requires
        offset >= blocks_total(blocks),
    ensures
        block_id_at(blocks, offset) == blocks.len(),
{
    lemma_block_id_past_end_from(blocks, offset, 0);
}

proof fn lemma_block_id_past_end_from(blocks: Seq<i32>, offset: int, from: int)
    requires
        0 <= from <= blocks.len(),
        offset >= blocks_total(blocks),
    ensures
        block_id_from(blocks, from, offset) == blocks.len(),
    decreases blocks.len() - from,
{
    if from < blocks.len() {
        lemma_block_start_monotone(blocks, from + 1, blocks.len() as int);
        lemma_block_id_past_end_from(blocks, offset, from + 1);
    }
}

/// An offset at or behind the start of block `i` lies in block `i` or in a
/// later one.
pub proof fn lemma_block_id_at_least(blocks: Seq<i32>, offset: int, i: int)
    requires
        0 <= i,
        block_start(blocks, i) <= offset < blocks_total(blocks),
    ensures
        i <= block_id_at(blocks, offset) < blocks.len(),
{
    lemma_block_start_monotone(blocks, i, i);
    lemma_block_id_bounds(blocks, offset);
    let id = block_id_at(blocks, offset);
    if id < i {
        lemma_block_start_monotone(blocks, id + 1, i);
    }
}

/// The block id never decreases along the pattern.
pub proof fn lemma_block_id_monotone(blocks: Seq<i32>, o1: int, o2: int)
    requires
        0 <= o1 <= o2 < blocks_total(blocks),
    ensures
        block_id_at(blocks, o1) <= block_id_at(blocks, o2),
{
    lemma_block_id_bounds(blocks, o1);
    lemma_block_id_bounds(blocks, o2);
    let i1 = block_id_at(blocks, o1);
    let i2 = block_id_at(blocks, o2);
    if i2 < i1 {
        lemma_block_start_monotone(blocks, i2 + 1, i1);
    }
}

} // verus!
