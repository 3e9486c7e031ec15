//! What stays fixed during a run: the user's settings and the corpus.
//!
//! The corpus text holds every sequence once, each behind a boundary byte,
//! and ends with one end byte:
//!
//! ```text
//! $ s0 $ s1 $ s2 #
//! ```
//!
//! Every sequence is stored backwards. The search walks a pattern from its
//! last symbol to its first, and stepping backwards is the one move that the
//! index offers, so a backwards walk over reversed text reads the sequences
//! forwards.

use vstd::prelude::*;
use vstd::slice::slice_subrange;
use crate::rate::ErrorRate;

verus! {

/// The byte in front of every sequence of the corpus text.
pub const BOUNDARY: u8 = 36;

/// The byte that ends the corpus text.
pub const END_MARK: u8 = 35;

/// The symbol that stands for an unreadable position. It matches nothing,
/// not even itself.
pub const READ_ERR: u8 = 78;

pub const SYMBOL_A: u8 = 65;

pub const SYMBOL_C: u8 = 67;

pub const SYMBOL_G: u8 = 71;

pub const SYMBOL_T: u8 = 84;

/// The alphabet with the unreadable symbol: `ACGNT`.
pub open spec fn n_alphabet_symbols() -> Seq<u8> {
    seq![SYMBOL_A, SYMBOL_C, SYMBOL_G, READ_ERR, SYMBOL_T]
}

/// The alphabet without the unreadable symbol: `ACGT`.
pub open spec fn plain_alphabet_symbols() -> Seq<u8> {
    seq![SYMBOL_A, SYMBOL_C, SYMBOL_G, SYMBOL_T]
}

/// One of the five symbols that a sequence is made of.
pub open spec fn is_sequence_symbol(c: u8) -> bool {
    c == SYMBOL_A || c == SYMBOL_C || c == SYMBOL_G || c == SYMBOL_T || c == READ_ERR
}

/// One of the two bytes that structure the corpus text.
pub open spec fn is_sentinel(c: u8) -> bool {
    c == BOUNDARY || c == END_MARK
}

/// The corpus text with the places and names of its sequences.
///
/// Sequence `id` starts at `indexes[id]`; the starts increase with the id, so
/// the owner of a text position is found by bisection.
#[derive(Debug)]
pub struct Maps {
    pub text: Vec<u8>,
    pub id2name_vec: Vec<String>,
    pub indexes: Vec<usize>,
}

impl Maps {
    /// Where sequence `id` starts in the text.
    pub open spec fn start_of(self, id: int) -> int {
        self.indexes@[id] as int
    }

    /// Where sequence `id` ends in the text: at the boundary byte of the next
    /// sequence, or at the end byte.
    pub open spec fn end_of(self, id: int) -> int {
        if id == self.indexes@.len() - 1 {
            self.text@.len() - 1
        } else {
            self.indexes@[id + 1] - 1
        }
    }

    /// The stored symbols of sequence `id`.
    pub open spec fn sequence(self, id: int) -> Seq<u8> {
        self.text@.subrange(self.start_of(id), self.end_of(id))
    }

    /// The symbols of sequence `id` in reading order.
    pub open spec fn external_sequence(self, id: int) -> Seq<u8> {
        self.sequence(id).reverse()
    }

    /// Whether a sequence starts at text position `offset`.
    pub open spec fn is_start(self, offset: int) -> bool {
        exists|id: int| 0 <= id < self.indexes@.len() && #[trigger] self.indexes@[id] == offset
    }

    /// Whether text position `offset` lies in the stretch that begins with
    /// sequence `id` and ends before the next sequence.
    pub open spec fn holds(self, id: int, offset: int) -> bool {
        &&& 0 <= id < self.indexes@.len()
        &&& self.indexes@[id] <= offset
        &&& id + 1 < self.indexes@.len() ==> offset < self.indexes@[id + 1]
    }

    /// The sequence in whose stretch text position `offset` lies.
    pub open spec fn owner_of(self, offset: int) -> int {
        choose|id: int| self.holds(id, offset)
    }

    /// The text is a run of sequences, each behind a boundary byte, closed by
    /// the end byte; `indexes` holds exactly the positions behind the boundary
    /// bytes, in increasing order; no sequence holds a sentinel or is longer
    /// than an overhang can express; every sequence has a name.
    pub open spec fn wf(self) -> bool {
        &&& self.text@.len() >= 1
        &&& self.text@[self.text@.len() - 1] == END_MARK
        &&& self.id2name_vec@.len() == self.indexes@.len()
        &&& forall|i: int|
            0 <= i < self.indexes@.len() ==> 1 <= #[trigger] self.indexes@[i] < self.text@.len()
        &&& forall|i: int, j: int|
            0 <= i < j < self.indexes@.len() ==> #[trigger] self.indexes@[i] < #[trigger] self.indexes@[j]
        &&& forall|p: int|
            0 <= p < self.text@.len() - 1 ==> (#[trigger] self.text@[p] == BOUNDARY
                <==> self.is_start(p + 1))
        &&& forall|p: int| 0 <= p < self.text@.len() - 1 ==> #[trigger] self.text@[p] != END_MARK
        &&& forall|i: int|
            0 <= i < self.indexes@.len() ==> self.end_of(i) - #[trigger] self.start_of(i)
                <= i32::MAX
    }

    /// Sequence `2i + 1` is the reverse complement of sequence `2i`. In the
    /// text, where both are stored backwards, it is stored as the complement
    /// of the reading of `2i`.
    pub open spec fn companions_wf(self) -> bool {
        &&& self.indexes@.len() % 2 == 0
        &&& forall|id: int|
            0 <= id < self.indexes@.len() && id % 2 == 0 ==> #[trigger] self.sequence(id + 1)
                == complement_seq(self.sequence(id).reverse())
    }

    /// The number of sequences.
    pub fn num_ids(&self) -> (r: usize)
        ensures
            r == self.indexes@.len(),
    {
        self.indexes.len()
    }

    /// The stored symbols of sequence `id`.
    pub fn get_string(&self, id: usize) -> (r: &[u8])
        requires
            self.wf(),
            id < self.indexes@.len(),
        ensures
            r@ == self.sequence(id as int),
    {
        proof {
            self.lemma_sequence_bounds(id as int);
        }
        slice_subrange(self.text.as_slice(), self.indexes[id], self.get_end_index(id))
    }

    /// The length of sequence `id`.
    pub fn get_length(&self, id: usize) -> (r: usize)
        requires
            self.wf(),
            id < self.indexes@.len(),
        ensures
            r == self.sequence(id as int).len(),
            r <= i32::MAX,
    {
        proof {
            self.lemma_sequence_bounds(id as int);
        }
        self.get_end_index(id) - self.indexes[id]
    }

    fn get_end_index(&self, id: usize) -> (r: usize)
        requires
            self.wf(),
            id < self.indexes@.len(),
        ensures
            r as int == self.end_of(id as int),
    {
        if id == self.num_ids() - 1 {
            self.text.len() - 1
        } else {
            self.indexes[id + 1] - 1
        }
    }

    /// The sequence that holds text position `index`, with its start:
    /// the last sequence that starts at or before `index`.
    #[inline]
    pub fn find_occurrence_containing(&self, index: usize) -> (r: (usize, usize))
        requires
            self.wf(),
            self.indexes@.len() > 0,
            self.indexes@[0] <= index,
        ensures
            self.holds(r.0 as int, index as int),
            r.0 as int == self.owner_of(index as int),
            r.1 == self.indexes@[r.0 as int],
    {
        let mut lo: usize = 0;
        let mut hi: usize = self.indexes.len();
        while hi - lo > 1
            invariant
                self.wf(),
                0 <= lo < hi <= self.indexes@.len(),
                self.indexes@[lo as int] <= index,
                hi < self.indexes@.len() ==> index < self.indexes@[hi as int],
            decreases hi - lo,
        {
            let mid: usize = lo + (hi - lo) / 2;
            if self.indexes[mid] <= index {
                lo = mid;
            } else {
                hi = mid;
            }
        }
        proof {
            self.lemma_owner_unique(lo as int, index as int);
        }
        (lo, self.indexes[lo])
    }

    /// The name of sequence `id`.
    pub fn get_name_for(&self, id: usize) -> (r: &str)
        requires
            id < self.id2name_vec@.len(),
        ensures
            r@ == self.id2name_vec@[id as int]@,
    {
        self.id2name_vec[id].as_str()
    }

    /// The sequence that starts at text position `offset`, if one does.
    pub fn find_id_at(&self, offset: usize) -> (r: Option<usize>)
        requires
            self.wf(),
        ensures
            r.is_some() <==> self.is_start(offset as int),
            r matches Some(id) ==> id < self.indexes@.len() && self.indexes@[id as int] == offset
                && id as int == self.owner_of(offset as int),
    {
        if self.indexes.len() == 0 || offset < self.indexes[0] {
            return None;
        }
        let (id, start) = self.find_occurrence_containing(offset);
        if start == offset {
            Some(id)
        } else {
            assert forall|other: int| 0 <= other < self.indexes@.len() implies self.indexes@[other]
                != offset by {
                if other < id {
                    assert(self.indexes@[other] < self.indexes@[id as int]);
                } else if other > id {
                    if other > id + 1 {
                        assert(self.indexes@[id + 1] < self.indexes@[other]);
                    }
                }
            }
            None
        }
    }

    /// The sequence that starts at text position `offset`.
    #[inline]
    pub fn id_for(&self, offset: usize) -> (r: usize)
        requires
            self.wf(),
            self.is_start(offset as int),
        ensures
            r < self.indexes@.len(),
            self.indexes@[r as int] == offset,
            r as int == self.owner_of(offset as int),
    {
        match self.find_id_at(offset) {
            Some(id) => id,
            None => 0,
        }
    }

    /// The text position at which sequence `id` starts.
    #[inline]
    pub fn index_for(&self, id: usize) -> (r: usize)
        requires
            id < self.indexes@.len(),
        ensures
            r == self.indexes@[id as int],
    {
        self.indexes[id]
    }

    /// The starts increase, so a text position lies in one stretch only.
    pub proof fn lemma_owner_unique(self, id: int, offset: int)
        requires
            self.wf(),
            self.holds(id, offset),
        ensures
            self.owner_of(offset) == id,
    {
        let other = self.owner_of(offset);
        assert(self.holds(other, offset));
        if other < id {
            if other + 1 < id {
                assert(self.indexes@[other + 1] < self.indexes@[id]);
            }
        } else if other > id {
            if id + 1 < other {
                assert(self.indexes@[id + 1] < self.indexes@[other]);
            }
        }
    }

    /// Every sequence lies inside the text, between its boundary byte and the
    /// byte that closes it.
    pub proof fn lemma_sequence_bounds(self, id: int)
        requires
            self.wf(),
            0 <= id < self.indexes@.len(),
        ensures
            1 <= self.start_of(id) <= self.end_of(id) < self.text@.len(),
            self.sequence(id).len() == self.end_of(id) - self.start_of(id),
            self.sequence(id).len() <= i32::MAX,
    {
        assert(1 <= self.indexes@[id] < self.text@.len());
        if id < self.indexes@.len() - 1 {
            assert(self.indexes@[id] < self.indexes@[id + 1]);
            assert(1 <= self.indexes@[id + 1] < self.text@.len());
        }
        assert(self.end_of(id) - self.start_of(id) <= i32::MAX);
    }
}

/// The complement of a nucleotide: `A` with `T`, `C` with `G`; the unreadable
/// symbol stays. Any other byte is left as it is.
pub open spec fn complement_of(x: u8) -> u8 {
    if x == SYMBOL_A {
        SYMBOL_T
    } else if x == SYMBOL_T {
        SYMBOL_A
    } else if x == SYMBOL_C {
        SYMBOL_G
    } else if x == SYMBOL_G {
        SYMBOL_C
    } else {
        x
    }
}

/// A sequence with every symbol complemented.
pub open spec fn complement_seq(s: Seq<u8>) -> Seq<u8> {
    Seq::new(s.len(), |i: int| complement_of(s[i]))
}

/// What a run was asked to do.
#[derive(Debug)]
pub struct Config {
    pub input: String,
    pub output: String,
    pub err_rate: ErrorRate,
    pub thresh: i32,
    pub format_line: bool,
    pub greedy_output: bool,
    pub reversals: bool,
    pub inclusions: bool,
    pub edit_distance: bool,
    pub verbosity: u8,
    pub print: bool,
    pub n_alphabet: bool,
    pub track_progress: bool,
    pub worker_threads: usize,
}

/// Why a configuration cannot be run.
#[derive(Debug, Clone, Copy, PartialEq, Eq, Structural)]
pub enum ConfigError {
    /// The overlap threshold is not positive.
    Threshold,
    /// The error rate is not a fraction in `[0, 1)`.
    ErrorRate,
}

impl Config {
    /// The threshold is positive and the error rate lies in `[0, 1)`.
    pub open spec fn wf(self) -> bool {
        self.thresh > 0 && self.err_rate.wf()
    }

    /// The symbols that the search tries at every position.
    pub open spec fn spec_alphabet(self) -> Seq<u8> {
        if self.n_alphabet {
            n_alphabet_symbols()
        } else {
            plain_alphabet_symbols()
        }
    }

    /// The symbols that the search tries at every position: `ACGNT`, or
    /// `ACGT` where unreadable positions were removed from the input.
    pub fn alphabet(&self) -> (r: Vec<u8>)
        ensures
            r@ == self.spec_alphabet(),
    {
        let mut symbols: Vec<u8> = Vec::new();
        symbols.push(SYMBOL_A);
        symbols.push(SYMBOL_C);
        symbols.push(SYMBOL_G);
        if self.n_alphabet {
            symbols.push(READ_ERR);
        }
        symbols.push(SYMBOL_T);
        assert(symbols@ =~= self.spec_alphabet());
        symbols
    }

    /// Rejects a configuration that cannot be run: first a threshold that is
    /// not positive, then an error rate outside `[0, 1)`.
    pub fn check(&self) -> (r: Result<(), ConfigError>)
        ensures
            r.is_ok() <==> self.wf(),
            r == Err::<(), ConfigError>(ConfigError::Threshold) <==> self.thresh <= 0,
            r == Err::<(), ConfigError>(ConfigError::ErrorRate) <==> (self.thresh > 0
                && !self.err_rate.wf()),
    {
        if self.thresh <= 0 {
            Err(ConfigError::Threshold)
        } else if !(0 < self.err_rate.den && self.err_rate.num < self.err_rate.den) {
            Err(ConfigError::ErrorRate)
        } else {
            Ok(())
        }
    }
}

} // verus!
