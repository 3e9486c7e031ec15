//! Candidate generation: the filtered backward search.
//!
//! A pattern is cut into blocks. For every suffix of the block sequence (a
//! filter) the search walks the pattern from the first symbol that the
//! filter covers towards the pattern's start, extending a range of index rows
//! one symbol at a time. A walk may replace a pattern symbol, and under edit
//! distance it may also skip one or put a text symbol in between; how many
//! such errors it may hold depends on the number of blocks it has passed.
//! Where a walk has reached a sequence boundary in the text, or the end of
//! the pattern inside a sequence, it proposes a candidate.

use vstd::prelude::*;
use crate::index::{IndexModel, Interval, TextIndex};
use crate::modes::{block_id_at, block_start, blocks_total, Mode};
use crate::rate::ErrorRate;
use crate::structs::run_config::{Config, Maps, BOUNDARY, READ_ERR};
use crate::structs::solutions::{Candidate, CandidateSet};
use crate::useful::{companion_id, companion_of};

verus! {

/// The step that led to a search node.
///
/// An insertion next to a deletion amounts to a replacement, and a walk that
/// ends in an insertion or a deletion is a shorter walk with an overhang. To
/// visit no alignment twice, a deletion follows only a deletion or a
/// replacement, an insertion only an insertion or a replacement, and
/// candidates come only from the root and from nodes reached by a
/// replacement.
#[derive(PartialEq, Eq, Structural, Copy, Clone, Debug)]
pub enum LastOperation {
    Initial,
    Substitution,
    Insertion,
    Deletion,
}

impl LastOperation {
    pub open spec fn spec_allows_deletion(self) -> bool {
        self == LastOperation::Deletion || self == LastOperation::Substitution
    }

    pub open spec fn spec_allows_insertion(self) -> bool {
        self == LastOperation::Insertion || self == LastOperation::Substitution
    }

    pub open spec fn spec_allows_candidates(self) -> bool {
        self == LastOperation::Initial || self == LastOperation::Substitution
    }

    /// Whether a deletion may follow.
    pub fn allows_deletion(self) -> (r: bool)
        ensures
            r == self.spec_allows_deletion(),
    {
        self == LastOperation::Deletion || self == LastOperation::Substitution
    }

    /// Whether an insertion may follow.
    pub fn allows_insertion(self) -> (r: bool)
        ensures
            r == self.spec_allows_insertion(),
    {
        self == LastOperation::Insertion || self == LastOperation::Substitution
    }

    /// Whether the node may propose candidates.
    pub fn allows_candidates(self) -> (r: bool)
        ensures
            r == self.spec_allows_candidates(),
    {
        self == LastOperation::Initial || self == LastOperation::Substitution
    }
}

/// What stays fixed while one filter is searched.
///
/// The blind blocks are those that the filter leaves out; the blind symbols
/// are the pattern symbols in them. The generous count is the longest text
/// that the blind symbols can align with.
#[derive(Debug, Clone, Copy)]
pub struct SuffixConstants {
    pub blind_blocks: i32,
    pub blind_a_chars: usize,
    pub generous_blind_chars: usize,
}

/// What stays fixed while one pattern is searched.
pub struct PatternConstants<'a> {
    pub config: &'a Config,
    pub maps: &'a Maps,
    pub block_lengths: &'a Vec<i32>,
    pub block_id_lookup: &'a Vec<i32>,
    pub alphabet: &'a Vec<u8>,
    pub pattern: &'a [u8],
    pub id_a: usize,
    pub hard_error_cap: i32,
    pub patt_blocks: i32,
    pub mode: &'a Mode,
}

/// A query in mathematical terms: the pattern with everything that the
/// search of it depends on, apart from the index.
pub struct Query {
    pub pattern: Seq<u8>,
    pub id_a: int,
    pub blocks: Seq<i32>,
    pub hard_error_cap: int,
    pub thresh: int,
    pub err_rate: ErrorRate,
    pub reversals: bool,
    pub inclusions: bool,
    pub edit_distance: bool,
    pub alphabet: Seq<u8>,
    pub mode: Mode,
    pub maps: Maps,
}

/// A node of the search tree.
///
/// `p_i` is the pattern position that is matched next, -1 once the pattern is
/// used up. `a_match_len` pattern symbols and `b_match_len` text symbols have
/// been aligned, with `errors` errors; `rows` holds the suffixes that start
/// with the text symbols walked so far.
pub struct SearchNode {
    pub errors: int,
    pub p_i: int,
    pub last_operation: LastOperation,
    pub a_match_len: int,
    pub b_match_len: int,
    pub rows: Interval,
}

/// The longest text that a pattern of `patt_len` symbols can align with.
pub open spec fn max_b_len(err_rate: ErrorRate, edit_distance: bool, patt_len: int) -> int {
    if edit_distance {
        err_rate.stretched(patt_len)
    } else {
        patt_len
    }
}

/// The query for a pattern under a configuration and a scheme. No walk may
/// hold more errors than the longest possible overlap allows.
pub open spec fn query_of(pattern: Seq<u8>, config: Config, maps: Maps, id_a: int, mode: Mode) -> Query {
    Query {
        pattern,
        id_a,
        blocks: mode.spec_blocks(pattern.len() as int, config.err_rate, config.thresh as int),
        hard_error_cap: config.err_rate.floor_of(
            max_b_len(config.err_rate, config.edit_distance, pattern.len() as int),
        ),
        thresh: config.thresh as int,
        err_rate: config.err_rate,
        reversals: config.reversals,
        inclusions: config.inclusions,
        edit_distance: config.edit_distance,
        alphabet: config.spec_alphabet(),
        mode,
        maps,
    }
}

impl Query {
    /// The blocks cover the pattern, and every number that the search
    /// computes fits the integer type it is held in.
    pub open spec fn wf(self) -> bool {
        &&& self.err_rate.wf()
        &&& self.thresh >= 1
        &&& self.maps.wf()
        &&& 0 <= self.id_a < self.maps.indexes@.len()
        &&& blocks_total(self.blocks) == self.pattern.len()
        &&& forall|i: int| 0 <= i < self.blocks.len() ==> #[trigger] self.blocks[i] >= 0
        &&& self.blocks.len() + 2 <= i32::MAX
        &&& 0 <= self.hard_error_cap
        &&& self.pattern.len() + self.hard_error_cap + self.err_rate.stretched(
            self.pattern.len() as int,
        ) < i32::MAX
        &&& self.mode matches Mode::Kucherov(m) ==> m.s_param >= 0
    }

    /// The constants of the filter that leaves out the first `blind` blocks.
    pub open spec fn filter(self, blind: int) -> SuffixConstants {
        SuffixConstants {
            blind_blocks: blind as i32,
            blind_a_chars: block_start(self.blocks, blind) as usize,
            generous_blind_chars: self.err_rate.stretched(block_start(self.blocks, blind)) as usize,
        }
    }

    /// The root of the search under the filter that leaves out the first
    /// `blind` blocks: nothing matched, all rows.
    pub open spec fn root(self, ix: IndexModel, blind: int) -> SearchNode {
        SearchNode {
            errors: 0,
            p_i: self.pattern.len() - 1 - block_start(self.blocks, blind),
            last_operation: LastOperation::Initial,
            a_match_len: 0,
            b_match_len: 0,
            rows: Interval { lower: 0, upper: ix.bwt.len() as usize },
        }
    }

    /// The number of blocks of the current filter that a walk has completed
    /// when it stands before pattern position `p_i`.
    pub open spec fn completed_blocks(self, s: SuffixConstants, p_i: int) -> int {
        (if 0 <= p_i < self.pattern.len() {
            block_id_at(self.blocks, self.pattern.len() - 1 - p_i)
        } else {
            self.blocks.len() as int
        }) - s.blind_blocks
    }

    /// The number of errors that a walk may hold before pattern position
    /// `p_i`: what the scheme's filter permits, capped.
    pub open spec fn permitted_errors(self, s: SuffixConstants, p_i: int) -> int {
        let by_filter = self.mode.spec_filter(
            self.completed_blocks(s, p_i),
            self.blocks.len() as int,
            s.blind_blocks as int,
        );
        if self.hard_error_cap < by_filter {
            self.hard_error_cap
        } else {
            by_filter
        }
    }

    /// Whether a node may propose candidates: the scheme admits it, and it
    /// is the root or was reached by a replacement.
    pub open spec fn may_emit(self, s: SuffixConstants, node: SearchNode) -> bool {
        let longer = if node.a_match_len > node.b_match_len {
            node.a_match_len
        } else {
            node.b_match_len
        };
        self.mode.spec_condition(
            longer + s.generous_blind_chars,
            self.completed_blocks(s, node.p_i),
            self.thresh,
            node.errors,
        ) && node.last_operation.spec_allows_candidates()
    }

    /// The candidate, if any, for an index hit at text position `position`
    /// with `b2` aligned symbols of `b`.
    ///
    /// For an overlap the hit is the boundary byte in front of `b`; for an
    /// inclusion it is the place inside `b` where the match starts. No
    /// candidate comes from a hit in the query sequence itself or in its
    /// companion, from the second of two mirror-image hits, from a `b2`
    /// outside the range that the error rate leaves, from an overlap below
    /// the threshold, or from one that would run past the end of `b`.
    pub open spec fn candidate_for(
        self,
        s: SuffixConstants,
        a_match_len: int,
        b_match_len: int,
        position: int,
        inclusion: bool,
        b2: int,
    ) -> Option<Candidate> {
        let start = if inclusion {
            position
        } else {
            position + 1
        };
        let located = if inclusion {
            self.maps.indexes@.len() > 0 && self.maps.indexes@[0] <= start
        } else {
            self.maps.is_start(start)
        };
        let id_b = self.maps.owner_of(start);
        let a_len = self.pattern.len() as int;
        let b_len = self.maps.sequence(id_b).len() as int;
        let a2 = a_match_len + s.blind_a_chars;
        let a1 = if inclusion {
            0
        } else {
            a_len - a2
        };
        let b1 = if inclusion {
            start - self.maps.start_of(id_b)
        } else {
            0
        };
        let min_b2 = if !self.edit_distance {
            a2
        } else if self.err_rate.shrunk(a2) > b_match_len {
            self.err_rate.shrunk(a2)
        } else {
            b_match_len
        };
        let max_b2 = if !self.edit_distance {
            a2
        } else if self.err_rate.stretched(a2) < b_len {
            self.err_rate.stretched(a2)
        } else {
            b_len
        };
        if !located {
            None
        } else if id_b == self.id_a || (self.reversals && self.id_a == companion_of(id_b)) {
            None
        } else if self.reversals && !inclusion && self.id_a > id_b {
            None
        } else if self.inclusions && inclusion && a_len == a_match_len && b_len == b_match_len
            && a_len == b_len && self.id_a > id_b {
            None
        } else if a2 > a_len || (inclusion && a2 != a_len) {
            None
        } else if b2 < min_b2 || b2 > max_b2 {
            None
        } else if a2 < self.thresh && b2 < self.thresh {
            None
        } else if b_len - b1 - b2 < 0 {
            None
        } else {
            Some(
                Candidate {
                    id_b: id_b as usize,
                    overlap_a: a2 as usize,
                    overlap_b: b2 as usize,
                    overhang_left_a: (a1 - b1) as i32,
                },
            )
        }
    }

    /// All candidates for one index hit.
    pub open spec fn hit_candidates(
        self,
        s: SuffixConstants,
        a_match_len: int,
        b_match_len: int,
        position: int,
        inclusion: bool,
    ) -> Set<Candidate> {
        Set::new(
            |c: Candidate|
                exists|b2: int|
                    #[trigger] self.candidate_for(
                        s,
                        a_match_len,
                        b_match_len,
                        position,
                        inclusion,
                        b2,
                    ) == Some(c),
        )
    }

    /// The candidates for one index hit with fewer than `bound` aligned
    /// symbols of `b`.
    pub open spec fn hit_candidates_below(
        self,
        s: SuffixConstants,
        a_match_len: int,
        b_match_len: int,
        position: int,
        inclusion: bool,
        bound: int,
    ) -> Set<Candidate> {
        Set::new(
            |c: Candidate|
                exists|b2: int|
                    b2 < bound && #[trigger] self.candidate_for(
                        s,
                        a_match_len,
                        b_match_len,
                        position,
                        inclusion,
                        b2,
                    ) == Some(c),
        )
    }

    /// All candidates for a list of index hits.
    pub open spec fn candidates_at(
        self,
        s: SuffixConstants,
        a_match_len: int,
        b_match_len: int,
        positions: Seq<usize>,
        inclusion: bool,
    ) -> Set<Candidate>
        decreases positions.len(),
    {
        if positions.len() == 0 {
            Set::empty()
        } else {
            self.candidates_at(s, a_match_len, b_match_len, positions.drop_last(), inclusion).union(
                self.hit_candidates(
                    s,
                    a_match_len,
                    b_match_len,
                    positions.last() as int,
                    inclusion,
                ),
            )
        }
    }

    /// The node reached by aligning the pattern symbol at `p_i` with the
    /// text symbol `a`. It costs an error unless the two are equal and
    /// readable.
    pub open spec fn substitution_child(self, ix: IndexModel, node: SearchNode, a: u8) -> SearchNode {
        SearchNode {
            errors: if self.pattern[node.p_i] == a && a != READ_ERR {
                node.errors
            } else {
                node.errors + 1
            },
            p_i: node.p_i - 1,
            last_operation: LastOperation::Substitution,
            a_match_len: node.a_match_len + 1,
            b_match_len: node.b_match_len + 1,
            rows: ix.extend(node.rows, a),
        }
    }

    /// The node reached by putting the text symbol `a` between two pattern
    /// symbols.
    pub open spec fn insertion_child(self, ix: IndexModel, node: SearchNode, a: u8) -> SearchNode {
        SearchNode {
            errors: node.errors + 1,
            p_i: node.p_i,
            last_operation: LastOperation::Insertion,
            a_match_len: node.a_match_len,
            b_match_len: node.b_match_len + 1,
            rows: ix.extend(node.rows, a),
        }
    }

    /// The node reached by skipping the pattern symbol at `p_i`.
    pub open spec fn deletion_child(self, node: SearchNode) -> SearchNode {
        SearchNode {
            errors: node.errors + 1,
            p_i: node.p_i - 1,
            last_operation: LastOperation::Deletion,
            a_match_len: node.a_match_len + 1,
            b_match_len: node.b_match_len,
            rows: node.rows,
        }
    }

    /// A replacement is tried wherever its errors stay within what is
    /// permitted.
    pub open spec fn takes_substitution(
        self,
        ix: IndexModel,
        s: SuffixConstants,
        node: SearchNode,
        a: u8,
    ) -> bool {
        self.substitution_child(ix, node, a).errors <= self.permitted_errors(s, node.p_i)
    }

    /// An insertion is tried under edit distance, where an error is to
    /// spare, the step before allows it, and the symbol differs from the
    /// pattern symbol (else a replacement does the same).
    pub open spec fn takes_insertion(self, s: SuffixConstants, node: SearchNode, a: u8) -> bool {
        &&& node.errors < self.permitted_errors(s, node.p_i)
        &&& self.edit_distance
        &&& node.last_operation.spec_allows_insertion()
        &&& self.pattern[node.p_i] != a
    }

    /// A deletion is tried under edit distance, where an error is to spare
    /// and the step before allows it.
    pub open spec fn takes_deletion(self, s: SuffixConstants, node: SearchNode) -> bool {
        &&& self.edit_distance
        &&& node.errors < self.permitted_errors(s, node.p_i)
        &&& node.last_operation.spec_allows_deletion()
    }

    /// What a node proposes itself: overlaps with the sequences at whose
    /// boundary byte its match stands, and, once the pattern is used up and
    /// inclusions are asked for, inclusions at every place of its match.
    pub open spec fn emitted_at(self, ix: IndexModel, s: SuffixConstants, node: SearchNode) -> Set<
        Candidate,
    > {
        (if self.may_emit(s, node) {
            self.candidates_at(
                s,
                node.a_match_len,
                node.b_match_len,
                ix.positions(ix.extend(node.rows, BOUNDARY)),
                false,
            )
        } else {
            Set::empty()
        }).union(
            if node.p_i < 0 && self.inclusions && self.may_emit(s, node) {
                self.candidates_at(
                    s,
                    node.a_match_len,
                    node.b_match_len,
                    ix.positions(node.rows),
                    true,
                )
            } else {
                Set::empty()
            },
        )
    }

    /// What the subtree of a node proposes. A node without rows proposes
    /// nothing. A node at the end of the pattern has no children: only
    /// insertions could follow, and no node behind an insertion proposes
    /// anything until a replacement follows, for which no pattern symbol is
    /// left.
    pub open spec fn explore(self, ix: IndexModel, s: SuffixConstants, node: SearchNode) -> Set<
        Candidate,
    >
        decreases node.p_i + 1, self.hard_error_cap - node.errors, self.alphabet.len() + 1,
    {
        if node.rows.is_empty() {
            Set::empty()
        } else if node.p_i < 0 {
            self.emitted_at(ix, s, node)
        } else {
            self.emitted_at(ix, s, node).union(self.branches(ix, s, node, 0)).union(
                if self.takes_deletion(s, node) {
                    self.explore(ix, s, self.deletion_child(node))
                } else {
                    Set::empty()
                },
            )
        }
    }

    /// What the children of a node by the alphabet symbols from the `k`-th
    /// on propose.
    pub open spec fn branches(
        self,
        ix: IndexModel,
        s: SuffixConstants,
        node: SearchNode,
        k: int,
    ) -> Set<Candidate>
        decreases node.p_i + 1, self.hard_error_cap - node.errors, self.alphabet.len() - k,
    {
        if node.p_i < 0 || k < 0 || k >= self.alphabet.len() {
            Set::empty()
        } else {
            let a = self.alphabet[k];
            (if self.takes_substitution(ix, s, node, a) {
                self.explore(ix, s, self.substitution_child(ix, node, a))
            } else {
                Set::empty()
            }).union(
                if self.takes_insertion(s, node, a) {
                    self.explore(ix, s, self.insertion_child(ix, node, a))
                } else {
                    Set::empty()
                },
            ).union(self.branches(ix, s, node, k + 1))
        }
    }

    /// Whether the filter that leaves out the first `blind` blocks is
    /// searched: it must keep as many blocks as the scheme asks for.
    pub open spec fn searches_filter(self, blind: int) -> bool {
        0 <= blind < self.blocks.len() && self.blocks.len() - blind
            >= self.mode.spec_fewest_suff_blocks()
    }

    /// What the filters that leave out fewer than `upto` blocks propose.
    pub open spec fn filters_below(self, ix: IndexModel, upto: int) -> Set<Candidate>
        decreases upto,
    {
        if upto <= 0 {
            Set::empty()
        } else {
            self.filters_below(ix, upto - 1).union(
                if self.searches_filter(upto - 1) {
                    self.explore(ix, self.filter(upto - 1), self.root(ix, upto - 1))
                } else {
                    Set::empty()
                },
            )
        }
    }

    /// The candidates of the query: what all its filters propose. A pattern
    /// that cannot reach the threshold even at its longest alignment has
    /// none.
    pub open spec fn candidates(self, ix: IndexModel) -> Set<Candidate> {
        if max_b_len(self.err_rate, self.edit_distance, self.pattern.len() as int) < self.thresh {
            Set::empty()
        } else {
            self.filters_below(ix, self.blocks.len() as int)
        }
    }

    /// The filter constants belong to this query.
    pub open spec fn owns_filter(self, s: SuffixConstants) -> bool {
        0 <= s.blind_blocks <= self.blocks.len() && s == self.filter(s.blind_blocks as int)
    }

    /// The node belongs to a walk of this query under the given filter.
    pub open spec fn owns_node(self, ix: IndexModel, s: SuffixConstants, node: SearchNode) -> bool {
        &&& -1 <= node.p_i
        &&& node.p_i + 1 + node.a_match_len + s.blind_a_chars == self.pattern.len()
        &&& 0 <= node.a_match_len
        &&& 0 <= node.b_match_len <= node.a_match_len + node.errors
        &&& 0 <= node.errors <= self.hard_error_cap
        &&& node.rows.lower <= node.rows.upper <= ix.bwt.len()
    }

    /// What a candidate of this query satisfies: it names another sequence
    /// than the query and its companion, and it fits the two sequences.
    pub open spec fn admits(self, c: Candidate) -> bool {
        &&& c.id_b < self.maps.indexes@.len()
        &&& c.id_b != self.id_a
        &&& self.reversals ==> self.id_a != companion_of(c.id_b as int)
        &&& c.fits(self.pattern.len() as int, self.maps.sequence(c.id_b as int).len() as int)
        &&& !self.edit_distance ==> c.overlap_a == c.overlap_b
    }
}

impl<'a> View for PatternConstants<'a> {
    type V = Query;

    open spec fn view(&self) -> Query {
        Query {
            pattern: self.pattern@,
            id_a: self.id_a as int,
            blocks: self.block_lengths@,
            hard_error_cap: self.hard_error_cap as int,
            thresh: self.config.thresh as int,
            err_rate: self.config.err_rate,
            reversals: self.config.reversals,
            inclusions: self.config.inclusions,
            edit_distance: self.config.edit_distance,
            alphabet: self.alphabet@,
            mode: *self.mode,
            maps: *self.maps,
        }
    }
}

impl<'a> PatternConstants<'a> {
    /// The derived fields agree with the pattern and its blocks, and the
    /// query is well-formed.
    pub open spec fn wf(self) -> bool {
        &&& self@.wf()
        &&& self.patt_blocks == self.block_lengths@.len()
        &&& is_block_id_lookup(self.block_lengths@, self.block_id_lookup@)
    }
}

/// `lookup` maps every pattern position to the id of its block. Blocks are
/// laid out from the end of the pattern, where the search starts: block 0
/// holds the last symbols.
pub open spec fn is_block_id_lookup(blocks: Seq<i32>, lookup: Seq<i32>) -> bool {
    &&& lookup.len() == blocks_total(blocks)
    &&& forall|i: int|
        0 <= i < lookup.len() ==> #[trigger] lookup[i] as int == block_id_at(
            blocks,
            lookup.len() - 1 - i,
        )
}

/// The table that maps every pattern position to the id of its block.
pub fn get_block_id_lookup(block_lengths: &[i32]) -> (lookup: Vec<i32>)
    requires
        block_lengths@.len() <= i32::MAX,
    ensures
        is_block_id_lookup(block_lengths@, lookup@),
{
    let mut forward: Vec<i32> = Vec::new();
    let mut id: usize = 0;
    while id < block_lengths.len()
        invariant
            0 <= id <= block_lengths@.len() <= i32::MAX,
            forward@.len() == block_start(block_lengths@, id as int),
            forall|i: int|
                0 <= i < forward@.len() ==> 0 <= #[trigger] forward@[i] < id && block_start(
                    block_lengths@,
                    forward@[i] as int,
                ) <= i < block_start(block_lengths@, forward@[i] + 1),
        decreases block_lengths@.len() - id,
    {
        let block_length: i32 = block_lengths[id];
        let mut n: i32 = 0;
        while n < block_length
            invariant
                0 <= id < block_lengths@.len() <= i32::MAX,
                block_length == block_lengths@[id as int],
                0 <= n,
                n == 0 || n <= block_length,
                forward@.len() == block_start(block_lengths@, id as int) + n,
                forall|i: int|
                    0 <= i < forward@.len() ==> 0 <= #[trigger] forward@[i] <= id && block_start(
                        block_lengths@,
                        forward@[i] as int,
                    ) <= i < block_start(block_lengths@, forward@[i] + 1),
            decreases block_length - n,
        {
            forward.push(id as i32);
            n = n + 1;
        }
        id = id + 1;
    }
    let total: usize = forward.len();
    let mut lookup: Vec<i32> = Vec::new();
    let mut j: usize = 0;
    while j < total
        invariant
            0 <= j <= total,
            total == forward@.len(),
            lookup@.len() == j,
            forall|i: int| 0 <= i < j ==> #[trigger] lookup@[i] == forward@[total - 1 - i],
        decreases total - j,
    {
        lookup.push(forward[total - 1 - j]);
        j = j + 1;
    }
    proof {
        assert forall|i: int| 0 <= i < lookup@.len() implies #[trigger] lookup@[i] as int
            == block_id_at(block_lengths@, lookup@.len() - 1 - i) by {
            let offset = total - 1 - i;
            crate::modes::lemma_block_id_unique(block_lengths@, offset, forward@[offset] as int);
        }
    }
    lookup
}

/// Proposes the candidates for one index hit: see
/// [`Query::candidate_for`] for which they are.
pub fn add_candidates_for_hit(
    position: usize,
    cand_set: &mut CandidateSet,
    p_cns: &PatternConstants,
    s_cns: &SuffixConstants,
    a_match_len: usize,
    b_match_len: usize,
    inclusion: bool,
)
    requires
        old(cand_set).wf(),
        p_cns.wf(),
        position < usize::MAX,
        a_match_len <= i32::MAX,
        b_match_len <= i32::MAX,
        s_cns.blind_a_chars <= i32::MAX,
    ensures
        final(cand_set).wf(),
        final(cand_set)@ == old(cand_set)@.union(
            p_cns@.hit_candidates(
                *s_cns,
                a_match_len as int,
                b_match_len as int,
                position as int,
                inclusion,
            ),
        ),
        forall|c: Candidate|
            final(cand_set)@.contains(c) ==> old(cand_set)@.contains(c) || p_cns@.admits(c),
{
    let ghost q = p_cns@;
    let ghost hit = q.hit_candidates(
        *s_cns,
        a_match_len as int,
        b_match_len as int,
        position as int,
        inclusion,
    );
    let ghost before = cand_set@;
    let start: usize = if inclusion {
        position
    } else {
        position + 1
    };
    let located: Option<(usize, usize)> = if inclusion {
        if p_cns.maps.num_ids() == 0 || start < p_cns.maps.index_for(0) {
            None
        } else {
            Some(p_cns.maps.find_occurrence_containing(start))
        }
    } else {
        match p_cns.maps.find_id_at(start) {
            Some(id) => Some((id, start)),
            None => None,
        }
    };
    let a_len: usize = p_cns.pattern.len();
    let a2: usize = a_match_len + s_cns.blind_a_chars;
    let mut skip: bool = located.is_none() || a2 > a_len || (inclusion && a2 != a_len);
    let mut id_b: usize = 0;
    let mut index_b: usize = 0;
    let mut b_len: usize = 0;
    if let Some((id, index)) = located {
        id_b = id;
        index_b = index;
        b_len = p_cns.maps.get_length(id_b);
        if id_b == p_cns.id_a || (p_cns.config.reversals && p_cns.id_a == companion_id(
            id_b,
            p_cns.config.reversals,
        )) {
            skip = true;
        } else if p_cns.config.reversals && !inclusion && p_cns.id_a > id_b {
            skip = true;
        } else if p_cns.config.inclusions && inclusion && a_len == a_match_len && b_len
            == b_match_len && a_len == b_len && p_cns.id_a > id_b {
            skip = true;
        }
    }
    if skip {
        proof {
            assert forall|b2: int|
                q.candidate_for(
                    *s_cns,
                    a_match_len as int,
                    b_match_len as int,
                    position as int,
                    inclusion,
                    b2,
                ) is None by {}
            assert(hit =~= Set::<Candidate>::empty());
            assert(before.union(hit) =~= before);
        }
        return;
    }
    let a1: usize = if inclusion {
        0
    } else {
        a_len - a2
    };
    let b1: usize = if inclusion {
        start - index_b
    } else {
        0
    };
    let err_rate: ErrorRate = p_cns.config.err_rate;
    let thresh: usize = p_cns.config.thresh as usize;
    let mut min_b2: usize = a2;
    let mut max_b2: usize = a2;
    if p_cns.config.edit_distance {
        let shortest: usize = err_rate.shrink(a2 as u32) as usize;
        min_b2 = if shortest > b_match_len {
            shortest
        } else {
            b_match_len
        };
        let longest: u64 = err_rate.stretch(a2 as u32);
        max_b2 = if longest < b_len as u64 {
            longest as usize
        } else {
            b_len
        };
    }
    proof {
        crate::rate::lemma_rate_shrink_bounds(err_rate, a2 as int);
        crate::rate::lemma_rate_stretch_bounds(err_rate, a2 as int);
        assert(q.hit_candidates_below(
            *s_cns,
            a_match_len as int,
            b_match_len as int,
            position as int,
            inclusion,
            min_b2 as int,
        ) =~= Set::<Candidate>::empty());
        assert(before.union(Set::<Candidate>::empty()) =~= before);
    }
    let mut b2: usize = min_b2;
    while b2 <= max_b2
        invariant
            cand_set.wf(),
            p_cns.wf(),
            q == p_cns@,
            min_b2 <= b2,
            b2 <= max_b2 + 1 || max_b2 < min_b2,
            max_b2 <= i32::MAX,
            q.edit_distance ==> min_b2 >= err_rate.shrunk(a2 as int) && max_b2
                <= err_rate.stretched(a2 as int),
            !q.edit_distance ==> min_b2 == a2 && max_b2 == a2,
            a2 == a_match_len + s_cns.blind_a_chars,
            a2 <= a_len == p_cns.pattern@.len(),
            inclusion ==> a2 == a_len,
            a1 == (if inclusion {
                0
            } else {
                a_len - a2
            }),
            thresh == p_cns.config.thresh,
            err_rate == p_cns.config.err_rate,
            id_b < q.maps.indexes@.len(),
            id_b != q.id_a,
            q.reversals ==> q.id_a != companion_of(id_b as int),
            b_len == q.maps.sequence(id_b as int).len(),
            b_len <= i32::MAX,
            forall|x: int|
                (#[trigger] q.candidate_for(
                    *s_cns,
                    a_match_len as int,
                    b_match_len as int,
                    position as int,
                    inclusion,
                    x,
                )) == (if x < min_b2 || x > max_b2 || (a2 < thresh && x < thresh) || b_len - b1 - x
                    < 0 {
                    None::<Candidate>
                } else {
                    Some(
                        Candidate {
                            id_b,
                            overlap_a: a2,
                            overlap_b: x as usize,
                            overhang_left_a: (a1 - b1) as i32,
                        },
                    )
                }),
            cand_set@ == before.union(
                q.hit_candidates_below(
                    *s_cns,
                    a_match_len as int,
                    b_match_len as int,
                    position as int,
                    inclusion,
                    b2 as int,
                ),
            ),
            forall|c: Candidate| cand_set@.contains(c) ==> before.contains(c) || q.admits(c),
        decreases max_b2 + 1 - b2,
    {
        let ghost done = q.hit_candidates_below(
            *s_cns,
            a_match_len as int,
            b_match_len as int,
            position as int,
            inclusion,
            b2 as int,
        );
        let ghost next = q.hit_candidates_below(
            *s_cns,
            a_match_len as int,
            b_match_len as int,
            position as int,
            inclusion,
            b2 + 1,
        );
        let ghost here = q.candidate_for(
            *s_cns,
            a_match_len as int,
            b_match_len as int,
            position as int,
            inclusion,
            b2 as int,
        );
        let long_enough: bool = a2 >= thresh || b2 >= thresh;
        if long_enough && b1 <= b_len && b2 <= b_len - b1 {
            let overhang: i32 = if inclusion {
                -(b1 as i32)
            } else {
                a1 as i32
            };
            let c = Candidate { id_b, overlap_a: a2, overlap_b: b2, overhang_left_a: overhang };
            assert(here == Some(c));
            cand_set.insert(c);
            proof {
                crate::rate::lemma_rate_shrink_bounds(err_rate, a2 as int);
                crate::rate::lemma_rate_stretch_bounds(err_rate, a2 as int);
                if a2 == 0 {
                    assert(err_rate.stretched(0) == 0) by {
                        assert(0 * err_rate.den == 0) by (nonlinear_arith);
                    }
                }
                assert(c.overlap_a > 0);
                assert(c.overlap_b > 0);
                assert(q.admits(c));
                assert forall|x: Candidate| next.contains(x) == done.insert(c).contains(x) by {
                    if next.contains(x) {
                        let w = choose|w: int|
                            w < b2 + 1 && #[trigger] q.candidate_for(
                                *s_cns,
                                a_match_len as int,
                                b_match_len as int,
                                position as int,
                                inclusion,
                                w,
                            ) == Some(x);
                        if w < b2 {
                            assert(done.contains(x));
                        }
                    }
                }
                assert(next =~= done.insert(c));
                assert(before.union(done).insert(c) =~= before.union(next));
            }
        } else {
            proof {
                assert(here is None);
                assert forall|x: Candidate| next.contains(x) == done.contains(x) by {
                    if next.contains(x) {
                        let w = choose|w: int|
                            w < b2 + 1 && #[trigger] q.candidate_for(
                                *s_cns,
                                a_match_len as int,
                                b_match_len as int,
                                position as int,
                                inclusion,
                                w,
                            ) == Some(x);
                        assert(w < b2);
                    }
                }
                assert(next =~= done);
            }
        }
        b2 = b2 + 1;
    }
    proof {
        let done = q.hit_candidates_below(
            *s_cns,
            a_match_len as int,
            b_match_len as int,
            position as int,
            inclusion,
            b2 as int,
        );
        assert forall|x: Candidate| hit.contains(x) == done.contains(x) by {
            if hit.contains(x) {
                let w = choose|w: int|
                    #[trigger] q.candidate_for(
                        *s_cns,
                        a_match_len as int,
                        b_match_len as int,
                        position as int,
                        inclusion,
                        w,
                    ) == Some(x);
                assert(w < b2);
            }
        }
        assert(hit =~= done);
    }
}

/// Proposes the candidates for a list of index hits.
#[inline]
pub fn add_candidates_from_positions(
    positions: Vec<usize>,
    cand_set: &mut CandidateSet,
    p_cns: &PatternConstants,
    s_cns: &SuffixConstants,
    a_match_len: usize,
    b_match_len: usize,
    inclusion: bool,
)
    requires
        old(cand_set).wf(),
        p_cns.wf(),
        forall|i: int| 0 <= i < positions@.len() ==> #[trigger] positions@[i] < usize::MAX,
        a_match_len <= i32::MAX,
        b_match_len <= i32::MAX,
        s_cns.blind_a_chars <= i32::MAX,
    ensures
        final(cand_set).wf(),
        final(cand_set)@ == old(cand_set)@.union(
            p_cns@.candidates_at(
                *s_cns,
                a_match_len as int,
                b_match_len as int,
                positions@,
                inclusion,
            ),
        ),
        forall|c: Candidate|
            final(cand_set)@.contains(c) ==> old(cand_set)@.contains(c) || p_cns@.admits(c),
{
    let ghost q = p_cns@;
    let ghost before = cand_set@;
    let mut i: usize = 0;
    proof {
        assert(positions@.take(0).len() == 0);
        assert(before.union(Set::<Candidate>::empty()) =~= before);
    }
    while i < positions.len()
        invariant
            0 <= i <= positions@.len(),
            cand_set.wf(),
            p_cns.wf(),
            q == p_cns@,
            forall|j: int| 0 <= j < positions@.len() ==> #[trigger] positions@[j] < usize::MAX,
            a_match_len <= i32::MAX,
            b_match_len <= i32::MAX,
            s_cns.blind_a_chars <= i32::MAX,
            cand_set@ == before.union(
                q.candidates_at(
                    *s_cns,
                    a_match_len as int,
                    b_match_len as int,
                    positions@.take(i as int),
                    inclusion,
                ),
            ),
            forall|c: Candidate| cand_set@.contains(c) ==> before.contains(c) || q.admits(c),
        decreases positions@.len() - i,
    {
        let ghost done = q.candidates_at(
            *s_cns,
            a_match_len as int,
            b_match_len as int,
            positions@.take(i as int),
            inclusion,
        );
        let ghost hit = q.hit_candidates(
            *s_cns,
            a_match_len as int,
            b_match_len as int,
            positions@[i as int] as int,
            inclusion,
        );
        add_candidates_for_hit(
            positions[i],
            cand_set,
            p_cns,
            s_cns,
            a_match_len,
            b_match_len,
            inclusion,
        );
        proof {
            assert(positions@.take(i + 1).drop_last() =~= positions@.take(i as int));
            assert(positions@.take(i + 1).last() == positions@[i as int]);
            assert(before.union(done).union(hit) =~= before.union(done.union(hit)));
        }
        i = i + 1;
    }
    assert(positions@.take(i as int) =~= positions@);
}

/// Whether a pattern of `patt_len` symbols can be searched: the scheme
/// accepts it, and the longest alignment, the errors it may hold and the
/// number of blocks fit the 32-bit integers that the search counts in.
pub open spec fn search_fits(patt_len: int, config: Config, mode: Mode) -> bool {
    &&& mode.accepts(patt_len, config.thresh as int)
    &&& patt_len + 2 * config.err_rate.stretched(patt_len)
        + mode.spec_guaranteed_extra_blocks() + 4 <= i32::MAX
}

/// Whether a pattern of `patt_len` symbols can be searched.
pub fn pattern_fits(patt_len: usize, config: &Config, mode: &Mode) -> (r: bool)
    requires
        config.wf(),
    ensures
        r == search_fits(patt_len as int, *config, *mode),
{
    if patt_len > i32::MAX as usize {
        proof {
            crate::rate::lemma_rate_stretch_bounds(config.err_rate, patt_len as int);
        }
        return false;
    }
    let len: i32 = patt_len as i32;
    let accepted: bool = match mode {
        Mode::Kucherov(m) => m.s_param >= 1 && (len as i64) + (m.s_param as i64) < i32::MAX as i64,
        Mode::Valimaki(_) => true,
        Mode::Valimaki2(_) => config.thresh <= len,
    };
    if !accepted {
        return false;
    }
    let extra: i32 = mode.get_guaranteed_extra_blocks();
    let stretched: u64 = config.err_rate.stretch(len as u32);
    if stretched > i32::MAX as u64 {
        return false;
    }
    (len as i64) + 2 * (stretched as i64) + (extra as i64) + 4 <= i32::MAX as i64
}

impl TextIndex {
    /// The index can look up every symbol that the query walks with.
    pub open spec fn serves(self, q: Query) -> bool {
        &&& self.wf()
        &&& forall|k: int| 0 <= k < q.alphabet.len() ==> self@.knows(#[trigger] q.alphabet[k])
    }

    /// The candidates of one pattern: what the searches of all its filters
    /// propose, from the filter of all blocks to the shortest filter that
    /// the scheme asks for.
    pub fn generate_candidates(
        &self,
        pattern: &[u8],
        config: &Config,
        maps: &Maps,
        id_a: usize,
        mode: &Mode,
    ) -> (r: CandidateSet)
        requires
            self.wf(),
            config.wf(),
            maps.wf(),
            id_a < maps.indexes@.len(),
            forall|k: int|
                0 <= k < config.spec_alphabet().len() ==> self@.knows(
                    #[trigger] config.spec_alphabet()[k],
                ),
            search_fits(pattern@.len() as int, *config, *mode),
        ensures
            r.wf(),
            r@ == query_of(pattern@, *config, *maps, id_a as int, *mode).candidates(self@),
            forall|c: Candidate|
                r@.contains(c) ==> query_of(pattern@, *config, *maps, id_a as int, *mode).admits(
                    c,
                ),
    {
        let mut candidate_set: CandidateSet = CandidateSet::new();
        let patt_len: usize = pattern.len();
        let err_rate: ErrorRate = config.err_rate;
        let ghost q = query_of(pattern@, *config, *maps, id_a as int, *mode);
        let ghost ix = self@;
        proof {
            crate::rate::lemma_rate_stretch_bounds(err_rate, patt_len as int);
            crate::modes::lemma_mode_blocks_shape(
                *mode,
                patt_len as int,
                err_rate,
                config.thresh as int,
            );
            self.lemma_rows();
        }
        let block_lengths: Vec<i32> = mode.get_block_lengths(
            patt_len as i32,
            err_rate,
            config.thresh,
        );
        let block_id_lookup: Vec<i32> = get_block_id_lookup(block_lengths.as_slice());
        let full_interval: Interval = self.full_interval();
        let patt_blocks: i32 = block_lengths.len() as i32;
        let max_b_len: u64 = if config.edit_distance {
            err_rate.stretch(patt_len as u32)
        } else {
            patt_len as u64
        };
        if max_b_len < config.thresh as u64 {
            return candidate_set;
        }
        proof {
            crate::rate::lemma_rate_floor_bounds(err_rate, max_b_len as int);
        }
        let hard_error_cap: i32 = err_rate.floor_mul(max_b_len as u32) as i32;
        let alphabet: Vec<u8> = config.alphabet();
        let p_cns = PatternConstants {
            config,
            maps,
            block_lengths: &block_lengths,
            block_id_lookup: &block_id_lookup,
            alphabet: &alphabet,
            pattern,
            id_a,
            hard_error_cap,
            patt_blocks,
            mode,
        };
        assert(p_cns@ == q);
        assert(p_cns.wf());
        let fewest: i32 = mode.get_fewest_suff_blocks();
        let mut first_block_id: usize = 0;
        let mut blind_a_chars: usize = 0;
        while first_block_id < block_lengths.len() && patt_blocks - (first_block_id as i32)
            >= fewest
            invariant
                0 <= first_block_id <= block_lengths@.len(),
                candidate_set.wf(),
                p_cns.wf(),
                self.serves(q),
                q == p_cns@,
                ix == self@,
                q.blocks == block_lengths@,
                patt_blocks == block_lengths@.len(),
                patt_len == pattern@.len(),
                patt_len == q.pattern.len(),
                err_rate == q.err_rate,
                fewest as int == q.mode.spec_fewest_suff_blocks(),
                full_interval == (Interval { lower: 0, upper: ix.bwt.len() as usize }),
                ix.bwt.len() <= usize::MAX,
                blind_a_chars == block_start(q.blocks, first_block_id as int),
                candidate_set@ == q.filters_below(ix, first_block_id as int),
                forall|c: Candidate| candidate_set@.contains(c) ==> q.admits(c),
            decreases block_lengths@.len() - first_block_id,
        {
            proof {
                crate::modes::lemma_block_start_monotone(
                    q.blocks,
                    first_block_id as int,
                    q.blocks.len() as int,
                );
                crate::modes::lemma_block_start_monotone(
                    q.blocks,
                    first_block_id + 1,
                    q.blocks.len() as int,
                );
                crate::rate::lemma_rate_stretch_bounds(err_rate, blind_a_chars as int);
                lemma_stretched_monotone(err_rate, blind_a_chars as int, patt_len as int);
            }
            let s_cns = SuffixConstants {
                blind_blocks: first_block_id as i32,
                blind_a_chars,
                generous_blind_chars: err_rate.stretch(blind_a_chars as u32) as usize,
            };
            assert(s_cns == q.filter(first_block_id as int));
            let p_i: i32 = (patt_len as i32) - 1 - (blind_a_chars as i32);
            self.recurse_candidates(
                &mut candidate_set,
                &p_cns,
                &s_cns,
                0,
                p_i,
                LastOperation::Initial,
                0,
                0,
                &full_interval,
            );
            assert(q.searches_filter(first_block_id as int));
            assert(block_lengths@[first_block_id as int] >= 0);
            blind_a_chars = blind_a_chars + block_lengths[first_block_id] as usize;
            first_block_id = first_block_id + 1;
        }
        proof {
            lemma_unsearched_filters(q, ix, first_block_id as int, q.blocks.len() as int);
        }
        candidate_set
    }

    /// Searches the subtree of one node and adds what it proposes.
    ///
    /// The node is given by its parts: `errors` errors so far, `p_i` the
    /// pattern position matched next, the step that led here, the numbers of
    /// pattern and text symbols aligned, and the rows of the match.
    pub fn recurse_candidates(
        &self,
        cand_set: &mut CandidateSet,
        p_cns: &PatternConstants,
        s_cns: &SuffixConstants,
        errors: i32,
        p_i: i32,
        last_operation: LastOperation,
        a_match_len: usize,
        b_match_len: usize,
        match_interval: &Interval,
    )
        requires
            old(cand_set).wf(),
            p_cns.wf(),
            self.serves(p_cns@),
            p_cns@.owns_filter(*s_cns),
            p_cns@.owns_node(
                self@,
                *s_cns,
                SearchNode {
                    errors: errors as int,
                    p_i: p_i as int,
                    last_operation,
                    a_match_len: a_match_len as int,
                    b_match_len: b_match_len as int,
                    rows: *match_interval,
                },
            ),
        ensures
            final(cand_set).wf(),
            final(cand_set)@ == old(cand_set)@.union(
                p_cns@.explore(
                    self@,
                    *s_cns,
                    SearchNode {
                        errors: errors as int,
                        p_i: p_i as int,
                        last_operation,
                        a_match_len: a_match_len as int,
                        b_match_len: b_match_len as int,
                        rows: *match_interval,
                    },
                ),
            ),
            forall|c: Candidate|
                final(cand_set)@.contains(c) ==> old(cand_set)@.contains(c) || p_cns@.admits(c),
        decreases p_i + 1, p_cns.hard_error_cap - errors,
    {
        let ghost q = p_cns@;
        let ghost ix = self@;
        let ghost s = *s_cns;
        let ghost node = SearchNode {
            errors: errors as int,
            p_i: p_i as int,
            last_operation,
            a_match_len: a_match_len as int,
            b_match_len: b_match_len as int,
            rows: *match_interval,
        };
        let ghost before = cand_set@;
        if match_interval.lower >= match_interval.upper {
            assert(before.union(Set::<Candidate>::empty()) =~= before);
            return;
        }
        let patt_len: usize = p_cns.pattern.len();
        proof {
            self.lemma_rows();
            crate::modes::lemma_block_start_monotone(
                q.blocks,
                s.blind_blocks as int,
                q.blocks.len() as int,
            );
            crate::rate::lemma_rate_stretch_bounds(q.err_rate, s.blind_a_chars as int);
            lemma_stretched_monotone(q.err_rate, s.blind_a_chars as int, patt_len as int);
            if p_i >= 0 {
                crate::modes::lemma_block_id_at_least(
                    q.blocks,
                    patt_len - 1 - p_i,
                    s.blind_blocks as int,
                );
            }
        }
        let completed_blocks: i32 = if p_i >= 0 {
            p_cns.block_id_lookup[p_i as usize] - s_cns.blind_blocks
        } else {
            p_cns.patt_blocks - s_cns.blind_blocks
        };
        assert(completed_blocks as int == q.completed_blocks(s, p_i as int));
        let by_filter: i32 = p_cns.mode.filter_func(
            completed_blocks,
            p_cns.patt_blocks,
            s_cns.blind_blocks,
        );
        let permitted_errors: i32 = if p_cns.hard_error_cap < by_filter {
            p_cns.hard_error_cap
        } else {
            by_filter
        };
        assert(permitted_errors as int == q.permitted_errors(s, p_i as int));
        let longer: usize = if a_match_len > b_match_len {
            a_match_len
        } else {
            b_match_len
        };
        let generous_overlap_len: usize = longer + s_cns.generous_blind_chars;
        let cand_condition_satisfied: bool = p_cns.mode.candidate_condition(
            generous_overlap_len as i32,
            completed_blocks,
            p_cns.config.thresh,
            errors,
        );
        let may_emit: bool = cand_condition_satisfied && last_operation.allows_candidates();
        assert(may_emit == q.may_emit(s, node));
        let ghost overlaps = if may_emit {
            q.candidates_at(
                s,
                node.a_match_len,
                node.b_match_len,
                ix.positions(ix.extend(node.rows, BOUNDARY)),
                false,
            )
        } else {
            Set::<Candidate>::empty()
        };
        if may_emit {
            let dollar_interval: Interval = self.extend(match_interval, BOUNDARY);
            let positions: Vec<usize> = self.positions(&dollar_interval);
            add_candidates_from_positions(
                positions,
                cand_set,
                p_cns,
                s_cns,
                a_match_len,
                b_match_len,
                false,
            );
        } else {
            assert(before.union(overlaps) =~= before);
        }
        assert(cand_set@ == before.union(overlaps));
        if p_i <= -1 {
            if p_cns.config.inclusions && may_emit {
                let positions: Vec<usize> = self.positions(match_interval);
                add_candidates_from_positions(
                    positions,
                    cand_set,
                    p_cns,
                    s_cns,
                    a_match_len,
                    b_match_len,
                    true,
                );
            } else {
                assert(before.union(overlaps).union(Set::<Candidate>::empty()) =~= before.union(
                    overlaps,
                ));
            }
            assert(cand_set@ =~= before.union(q.emitted_at(ix, s, node)));
            return;
        }
        let ghost emitted = q.emitted_at(ix, s, node);
        assert(emitted =~= overlaps);
        let p_char: u8 = p_cns.pattern[p_i as usize];
        let mut k: usize = 0;
        while k < p_cns.alphabet.len()
            invariant
                0 <= k <= p_cns.alphabet@.len(),
                cand_set.wf(),
                p_cns.wf(),
                self.serves(p_cns@),
                q == p_cns@,
                ix == self@,
                s == *s_cns,
                q.owns_filter(s),
                q.owns_node(ix, s, node),
                node == (SearchNode {
                    errors: errors as int,
                    p_i: p_i as int,
                    last_operation,
                    a_match_len: a_match_len as int,
                    b_match_len: b_match_len as int,
                    rows: *match_interval,
                }),
                0 <= p_i < p_cns.pattern@.len(),
                p_char == p_cns.pattern@[p_i as int],
                permitted_errors as int == q.permitted_errors(s, p_i as int),
                permitted_errors <= p_cns.hard_error_cap,
                a_match_len < i32::MAX,
                b_match_len < i32::MAX,
                cand_set@.union(q.branches(ix, s, node, k as int)) == before.union(emitted).union(
                    q.branches(ix, s, node, 0),
                ),
                forall|c: Candidate| cand_set@.contains(c) ==> before.contains(c) || q.admits(c),
            decreases p_cns.alphabet@.len() - k,
        {
            let a: u8 = p_cns.alphabet[k];
            let ghost at_entry = cand_set@;
            let ghost sub_set = if q.takes_substitution(ix, s, node, a) {
                q.explore(ix, s, q.substitution_child(ix, node, a))
            } else {
                Set::<Candidate>::empty()
            };
            let ghost ins_set = if q.takes_insertion(s, node, a) {
                q.explore(ix, s, q.insertion_child(ix, node, a))
            } else {
                Set::<Candidate>::empty()
            };
            assert(self@.knows(q.alphabet[k as int]));
            let next_interval: Interval = self.extend(match_interval, a);
            let recurse_errors: i32 = if p_char == a && a != READ_ERR {
                errors
            } else {
                errors + 1
            };
            if recurse_errors <= permitted_errors {
                self.recurse_candidates(
                    cand_set,
                    p_cns,
                    s_cns,
                    recurse_errors,
                    p_i - 1,
                    LastOperation::Substitution,
                    a_match_len + 1,
                    b_match_len + 1,
                    &next_interval,
                );
            }
            assert(cand_set@ =~= at_entry.union(sub_set));
            if (errors < permitted_errors) && p_cns.config.edit_distance
                && last_operation.allows_insertion() {
                if p_char != a {
                    self.recurse_candidates(
                        cand_set,
                        p_cns,
                        s_cns,
                        errors + 1,
                        p_i,
                        LastOperation::Insertion,
                        a_match_len,
                        b_match_len + 1,
                        &next_interval,
                    );
                }
            }
            assert(cand_set@ =~= at_entry.union(sub_set).union(ins_set));
            proof {
                let rest = q.branches(ix, s, node, k + 1);
                assert(q.branches(ix, s, node, k as int) == sub_set.union(ins_set).union(rest));
                assert(at_entry.union(sub_set).union(ins_set).union(rest) =~= at_entry.union(
                    sub_set.union(ins_set).union(rest),
                ));
            }
            k = k + 1;
        }
        assert(cand_set@ =~= before.union(emitted).union(q.branches(ix, s, node, 0))) by {
            assert(q.branches(ix, s, node, k as int) =~= Set::<Candidate>::empty());
        }
        let ghost at_entry = cand_set@;
        if p_cns.config.edit_distance && errors < permitted_errors {
            if last_operation.allows_deletion() {
                self.recurse_candidates(
                    cand_set,
                    p_cns,
                    s_cns,
                    errors + 1,
                    p_i - 1,
                    LastOperation::Deletion,
                    a_match_len + 1,
                    b_match_len,
                    match_interval,
                );
            }
        }
        proof {
            let del_set = if q.takes_deletion(s, node) {
                q.explore(ix, s, q.deletion_child(node))
            } else {
                Set::<Candidate>::empty()
            };
            assert(cand_set@ =~= at_entry.union(del_set));
            assert(before.union(emitted).union(q.branches(ix, s, node, 0)).union(del_set)
                =~= before.union(emitted.union(q.branches(ix, s, node, 0)).union(del_set)));
        }
    }
}

/// Filters that are not searched propose nothing: where the filter that
/// leaves out `lo` blocks is too short, so are all that leave out more.
pub proof fn lemma_unsearched_filters(q: Query, ix: IndexModel, lo: int, upto: int)
    requires
        0 <= lo <= upto,
        !q.searches_filter(lo) || lo == upto,
    ensures
        q.filters_below(ix, upto) == q.filters_below(ix, lo),
    decreases upto - lo,
{
    if lo < upto {
        lemma_unsearched_filters(q, ix, lo, upto - 1);
        assert(!q.searches_filter(upto - 1));
        assert(q.filters_below(ix, upto - 1).union(Set::<Candidate>::empty())
            =~= q.filters_below(ix, upto - 1));
    }
}

/// A longer pattern can align with at least as long a text.
pub proof fn lemma_stretched_monotone(e: ErrorRate, shorter: int, longer: int)
    requires
        e.wf(),
        0 <= shorter <= longer,
    ensures
        e.stretched(shorter) <= e.stretched(longer),
{
    assert(shorter * e.den <= longer * e.den) by (nonlinear_arith)
        requires 0 <= shorter <= longer, e.den > 0;
    crate::rate::lemma_div_monotone(shorter * e.den, longer * e.den, e.den - e.num);
}

} // verus!
