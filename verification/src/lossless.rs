//! Why the search misses no overlap.
//!
//! An overlap within the error rate is found by walking the pattern against
//! the text symbol by symbol. This module follows the one walk that reads
//! the symbols of the overlap itself: it shows that the walk is part of the
//! search tree of a filter as long as its errors stay within what the filter
//! permits, that it ends in the candidate of the overlap, and that under the
//! balanced-block scheme some filter does permit its errors.
//!
//! All of this is about Hamming distance, where a walk replaces symbols and
//! neither skips nor inserts any. It covers overlaps of the end of a pattern
//! with the start of another sequence and, where inclusions are searched,
//! patterns that lie inside another sequence.

use vstd::prelude::*;
use crate::index::{bwt_of, ends_with_least, is_suffix_array, IndexModel};
use crate::modes::{
    block_id_at,
    block_start,
    blocks_covering,
    lemma_block_id_at_least,
    lemma_block_id_bounds,
    lemma_block_id_monotone,
    lemma_block_start_monotone,
};
use crate::occurrences::{
    lemma_backward_search_finds_occurrences,
    lemma_extension_holds,
    lemma_rows_hold_positions,
    occurs_at,
    rows_for,
    rows_hold,
};
use crate::modes::kucherov::{kucherov_blocks, lemma_kucherov_cover, KucherovMode};
use crate::modes::Mode;
use crate::rate::{lemma_div_monotone, lemma_rate_floor_bounds, lemma_rate_stretch_bounds};
use crate::alignment::{
    lemma_distance_complemented,
    lemma_hamming_from_the_front,
    lemma_hamming_reversed,
    lemma_hamming_symmetric,
};
use crate::index::TextIndex;
use crate::modes::lemma_mode_blocks_shape;
use crate::search::{
    lemma_stretched_monotone,
    max_b_len,
    query_of,
    search_fits,
    LastOperation,
    Query,
    SearchNode,
    SuffixConstants,
};
use crate::solve::{solutions_of, solvable};
use crate::structs::run_config::{complement_of, complement_seq, Config};
use crate::structs::solutions::Solution;
use crate::useful::{is_reversed_id, Orientation};
use crate::verification::{
    aligned_a,
    aligned_b,
    canonical_solution,
    genuine_overlap,
    hamming_spec,
    lemma_canonical_pieces,
    lemma_companion_reading,
    lemma_complement_subrange,
    lemma_hamming_bounds,
    lemma_reverse_subrange,
    lemma_verdict_is_genuine,
    solution_part_a,
    solution_part_b,
    verdict,
    verifiable,
};
use crate::structs::run_config::{Maps, BOUNDARY, END_MARK, READ_ERR};
use crate::structs::solutions::Candidate;
use crate::useful::companion_of;

verus! {

/// The cost of aligning a pattern symbol with a text symbol in a walk:
/// nothing where they are equal and readable, one error otherwise.
pub open spec fn step_cost(pattern_symbol: u8, text_symbol: u8) -> int {
    if pattern_symbol == text_symbol && text_symbol != READ_ERR {
        0
    } else {
        1
    }
}

/// An overlap to be found: the last `len` symbols of the pattern against the
/// `len` symbols of sequence `id_b` from its symbol `offset` on, searched
/// under the filter that leaves out the last `blind` symbols of the pattern.
///
/// With `offset` 0 the end of the pattern meets the start of the other
/// sequence; with `len` the length of the pattern, the pattern lies inside
/// the other sequence.
pub struct Overlap {
    pub id_b: int,
    pub offset: int,
    pub len: int,
    pub blind: int,
}

impl Overlap {
    /// The stored symbols of the other sequence.
    pub open spec fn other(self, q: Query) -> Seq<u8> {
        q.maps.sequence(self.id_b)
    }

    /// The text symbol that the walk reads in its step `t`.
    pub open spec fn text_symbol(self, q: Query, t: int) -> u8 {
        self.other(q)[self.offset + self.len - 1 - self.blind - t]
    }

    /// The pattern symbol that the walk reads in its step `t`.
    pub open spec fn pattern_symbol(self, q: Query, t: int) -> u8 {
        q.pattern[q.pattern.len() - 1 - self.blind - t]
    }

    /// The errors of the walk after `t` steps.
    pub open spec fn errors_after(self, q: Query, t: int) -> int
        decreases t,
    {
        if t <= 0 {
            0
        } else {
            self.errors_after(q, t - 1) + step_cost(
                self.pattern_symbol(q, t - 1),
                self.text_symbol(q, t - 1),
            )
        }
    }

    /// The text symbols that the walk has read after `t` steps, in text
    /// order.
    pub open spec fn walked(self, q: Query, t: int) -> Seq<u8> {
        self.other(q).subrange(
            self.offset + self.len - self.blind - t,
            self.offset + self.len - self.blind,
        )
    }

    /// The node of the walk after `t` steps.
    pub open spec fn node(self, q: Query, ix: IndexModel, t: int) -> SearchNode {
        SearchNode {
            errors: self.errors_after(q, t),
            p_i: q.pattern.len() - 1 - self.blind - t,
            last_operation: if t == 0 {
                LastOperation::Initial
            } else {
                LastOperation::Substitution
            },
            a_match_len: t,
            b_match_len: t,
            rows: rows_for(ix, self.walked(q, t)),
        }
    }

    /// The number of steps of the walk.
    pub open spec fn steps(self) -> int {
        self.len - self.blind
    }

    /// The overlap lies in both sequences, names another sequence than the
    /// query, and every text symbol of it is one that the search walks with.
    /// Where reverse complements are searched, the other sequence is not the
    /// companion of the query either, and an overlap with its start needs it
    /// to have the larger id (with a sequence of smaller id such an overlap
    /// is left to the search from the companion of that sequence).
    pub open spec fn wf(self, q: Query) -> bool {
        &&& 0 <= self.id_b < q.maps.indexes@.len()
        &&& self.id_b != q.id_a
        &&& q.reversals ==> q.id_a != companion_of(self.id_b)
        &&& q.reversals && self.offset == 0 ==> q.id_a < self.id_b
        &&& 0 <= self.blind <= self.len
        &&& self.len <= q.pattern.len()
        &&& 0 <= self.offset
        &&& self.offset + self.len <= self.other(q).len()
        &&& forall|r: int|
            self.offset <= r < self.offset + self.len ==> q.alphabet.contains(
                #[trigger] self.other(q)[r],
            )
    }

    /// The walk stays within what the filter permits: after every step its
    /// errors are at most the errors permitted at the pattern position of
    /// that step.
    pub open spec fn within_budget(self, q: Query, s: SuffixConstants) -> bool {
        forall|t: int|
            0 <= t < self.steps() ==> #[trigger] self.errors_after(q, t + 1) <= q.permitted_errors(
                s,
                q.pattern.len() - 1 - self.blind - t,
            )
    }

    /// The candidate of the overlap.
    pub open spec fn candidate(self, q: Query) -> Candidate {
        Candidate {
            id_b: self.id_b as usize,
            overlap_a: self.len as usize,
            overlap_b: self.len as usize,
            overhang_left_a: (q.pattern.len() - self.len - self.offset) as i32,
        }
    }
}

/// Whether an index is the index of the corpus text of a query.
pub open spec fn indexes_corpus(ix: IndexModel, q: Query) -> bool {
    &&& is_suffix_array(q.maps.text@, ix.sa)
    &&& ends_with_least(q.maps.text@)
    &&& ix.bwt == bwt_of(q.maps.text@, ix.sa)
    &&& q.maps.text@.len() <= usize::MAX
}

/// A step of the walk is a replacement step of the search: the node after
/// `t + 1` steps is the child of the node after `t` steps by the text symbol
/// of step `t`.
pub proof fn lemma_walk_step(o: Overlap, q: Query, ix: IndexModel, t: int)
    requires
        o.wf(q),
        0 <= t < o.steps(),
    ensures
        q.substitution_child(ix, o.node(q, ix, t), o.text_symbol(q, t)) == o.node(q, ix, t + 1),
{
    let longer = o.walked(q, t + 1);
    assert(longer.drop_first() =~= o.walked(q, t));
    assert(longer[0] == o.text_symbol(q, t));
}

/// The symbols that the walk has read stand in the text where the other
/// sequence is stored, so the rows of every node of the walk hold a row.
pub proof fn lemma_walk_rows(o: Overlap, q: Query, ix: IndexModel, t: int)
    requires
        q.maps.wf(),
        o.wf(q),
        indexes_corpus(ix, q),
        0 <= t <= o.steps(),
    ensures
        !o.node(q, ix, t).rows.is_empty(),
        o.node(q, ix, t).rows.upper <= ix.sa.len(),
        rows_hold(q.maps.text@, ix.sa, o.node(q, ix, t).rows, o.walked(q, t)),
        occurs_at(
            q.maps.text@,
            o.walked(q, t),
            q.maps.start_of(o.id_b) + o.offset + o.steps() - t,
        ),
{
    let text = q.maps.text@;
    let w = o.walked(q, t);
    let start = q.maps.start_of(o.id_b);
    let p = start + o.offset + o.steps() - t;
    q.maps.lemma_sequence_bounds(o.id_b);
    assert(text.skip(p).take(w.len() as int) =~= w);
    assert forall|k: int| 0 <= k < w.len() implies #[trigger] w[k] != text[text.len() - 1] by {
        assert(w[k] == text[p + k]);
        assert(text[p + k] != END_MARK);
    }
    lemma_backward_search_finds_occurrences(text, ix, w);
    let rows = rows_for(ix, w);
    assert(occurs_at(text, w, p));
    assert(ix.positions(rows).contains(p as usize));
}

/// The children by the alphabet symbols from the `from`-th on include the
/// child of a replacement by any later symbol of the alphabet that the
/// search takes.
pub proof fn lemma_branches_contain(
    q: Query,
    ix: IndexModel,
    s: SuffixConstants,
    node: SearchNode,
    from: int,
    k: int,
)
    requires
        0 <= from <= k < q.alphabet.len(),
        node.p_i >= 0,
        q.takes_substitution(ix, s, node, q.alphabet[k]),
    ensures
        q.explore(ix, s, q.substitution_child(ix, node, q.alphabet[k])).subset_of(
            q.branches(ix, s, node, from),
        ),
    decreases k - from,
{
    if from < k {
        lemma_branches_contain(q, ix, s, node, from + 1, k);
    }
}

/// What the child of a replacement proposes, the node proposes.
pub proof fn lemma_explore_contains_child(
    q: Query,
    ix: IndexModel,
    s: SuffixConstants,
    node: SearchNode,
    a: u8,
)
    requires
        !node.rows.is_empty(),
        node.p_i >= 0,
        q.alphabet.contains(a),
        q.takes_substitution(ix, s, node, a),
    ensures
        q.explore(ix, s, q.substitution_child(ix, node, a)).subset_of(q.explore(ix, s, node)),
{
    let k = choose|k: int| 0 <= k < q.alphabet.len() && q.alphabet[k] == a;
    lemma_branches_contain(q, ix, s, node, 0, k);
}

/// What a node of a walk within budget proposes, the root of the walk
/// proposes.
pub proof fn lemma_walk_is_searched(
    o: Overlap,
    q: Query,
    ix: IndexModel,
    s: SuffixConstants,
    t: int,
)
    requires
        q.maps.wf(),
        o.wf(q),
        indexes_corpus(ix, q),
        o.within_budget(q, s),
        0 <= t <= o.steps(),
    ensures
        q.explore(ix, s, o.node(q, ix, t)).subset_of(q.explore(ix, s, o.node(q, ix, 0))),
    decreases t,
{
    if t > 0 {
        let before = o.node(q, ix, t - 1);
        let a = o.text_symbol(q, t - 1);
        lemma_walk_is_searched(o, q, ix, s, t - 1);
        lemma_walk_rows(o, q, ix, t - 1);
        lemma_walk_step(o, q, ix, t - 1);
        assert(q.alphabet.contains(o.other(q)[o.offset + o.len - 1 - o.blind - (t - 1)]));
        assert(o.errors_after(q, (t - 1) + 1) <= q.permitted_errors(
            s,
            q.pattern.len() - 1 - o.blind - (t - 1),
        ));
        lemma_explore_contains_child(q, ix, s, before, a);
    }
}

/// The candidates for a list of index hits include the candidates for each
/// of the hits.
pub proof fn lemma_candidates_at_contain(
    q: Query,
    s: SuffixConstants,
    a_match_len: int,
    b_match_len: int,
    positions: Seq<usize>,
    inclusion: bool,
    position: usize,
)
    requires
        positions.contains(position),
    ensures
        q.hit_candidates(s, a_match_len, b_match_len, position as int, inclusion).subset_of(
            q.candidates_at(s, a_match_len, b_match_len, positions, inclusion),
        ),
    decreases positions.len(),
{
    if positions.last() != position {
        let k = choose|k: int| 0 <= k < positions.len() && positions[k] == position;
        assert(positions.drop_last()[k] == position);
        lemma_candidates_at_contain(
            q,
            s,
            a_match_len,
            b_match_len,
            positions.drop_last(),
            inclusion,
            position,
        );
    }
}

/// The last node of a walk to the start of the other sequence proposes the
/// candidate of the overlap, if it may propose candidates at all and the
/// overlap reaches the threshold.
pub proof fn lemma_walk_ends_in_candidate(
    o: Overlap,
    q: Query,
    ix: IndexModel,
    s: SuffixConstants,
)
    requires
        q.wf(),
        o.wf(q),
        o.offset == 0,
        indexes_corpus(ix, q),
        !q.edit_distance,
        s.blind_a_chars == o.blind,
        q.thresh <= o.len,
        q.may_emit(s, o.node(q, ix, o.steps())),
    ensures
        q.explore(ix, s, o.node(q, ix, o.steps())).contains(o.candidate(q)),
{
    let text = q.maps.text@;
    let last = o.node(q, ix, o.steps());
    let w = o.walked(q, o.steps());
    let start = q.maps.start_of(o.id_b);
    lemma_walk_rows(o, q, ix, o.steps());
    q.maps.lemma_sequence_bounds(o.id_b);
    lemma_extension_holds(text, ix, last.rows, w, BOUNDARY);
    let reached = ix.extend(last.rows, BOUNDARY);
    let longer = seq![BOUNDARY] + w;
    assert(q.maps.is_start(start)) by {
        assert(q.maps.indexes@[o.id_b] == start);
    }
    assert(text[start - 1] == BOUNDARY);
    assert(occurs_at(text, longer, start - 1)) by {
        assert(text.skip(start - 1).take(longer.len() as int) =~= longer);
    }
    lemma_rows_hold_positions(text, ix, reached, longer, start - 1);
    let hit = (start - 1) as usize;
    lemma_candidates_at_contain(
        q,
        s,
        last.a_match_len,
        last.b_match_len,
        ix.positions(reached),
        false,
        hit,
    );
    q.maps.lemma_owner_unique(o.id_b, start);
    vstd::std_specs::vec::axiom_spec_len(&q.maps.indexes);
    assert(q.candidate_for(s, last.a_match_len, last.b_match_len, hit as int, false, o.len)
        == Some(o.candidate(q)));
    assert(q.hit_candidates(s, last.a_match_len, last.b_match_len, hit as int, false).contains(
        o.candidate(q),
    ));
    assert(q.emitted_at(ix, s, last).contains(o.candidate(q)));
}

/// The last node of a walk over the whole pattern proposes the candidate
/// of the place inside the other sequence at which it has walked, if
/// inclusions are searched and it may propose candidates at all.
pub proof fn lemma_walk_ends_in_inclusion(
    o: Overlap,
    q: Query,
    ix: IndexModel,
    s: SuffixConstants,
)
    requires
        q.wf(),
        o.wf(q),
        o.offset > 0,
        o.len == q.pattern.len(),
        q.inclusions,
        indexes_corpus(ix, q),
        !q.edit_distance,
        s.blind_a_chars == o.blind,
        q.thresh <= o.len,
        q.may_emit(s, o.node(q, ix, o.steps())),
    ensures
        q.explore(ix, s, o.node(q, ix, o.steps())).contains(o.candidate(q)),
{
    let text = q.maps.text@;
    let last = o.node(q, ix, o.steps());
    let w = o.walked(q, o.steps());
    let start = q.maps.start_of(o.id_b);
    lemma_walk_rows(o, q, ix, o.steps());
    q.maps.lemma_sequence_bounds(o.id_b);
    let place = start + o.offset;
    lemma_rows_hold_positions(text, ix, last.rows, w, place);
    let hit = place as usize;
    lemma_candidates_at_contain(
        q,
        s,
        last.a_match_len,
        last.b_match_len,
        ix.positions(last.rows),
        true,
        hit,
    );
    assert(q.maps.holds(o.id_b, place)) by {
        if o.id_b + 1 < q.maps.indexes@.len() {
            assert(q.maps.end_of(o.id_b) == q.maps.indexes@[o.id_b + 1] - 1);
        }
    }
    q.maps.lemma_owner_unique(o.id_b, place);
    assert(q.maps.indexes@[0] <= place) by {
        if o.id_b > 0 {
            assert(q.maps.indexes@[0] < q.maps.indexes@[o.id_b]);
        }
    }
    vstd::std_specs::vec::axiom_spec_len(&q.maps.indexes);
    assert(q.candidate_for(s, last.a_match_len, last.b_match_len, hit as int, true, o.len)
        == Some(o.candidate(q)));
    assert(q.hit_candidates(s, last.a_match_len, last.b_match_len, hit as int, true).contains(
        o.candidate(q),
    ));
    assert(q.emitted_at(ix, s, last).contains(o.candidate(q)));
}

impl Overlap {
    /// The same overlap under the filter that leaves nothing out.
    pub open spec fn whole(self) -> Overlap {
        Overlap { id_b: self.id_b, offset: self.offset, len: self.len, blind: 0 }
    }

    /// The same overlap under the filter that leaves out `blind` symbols.
    pub open spec fn under(self, blind: int) -> Overlap {
        Overlap { id_b: self.id_b, offset: self.offset, len: self.len, blind }
    }

    /// The errors among the first `upto` symbols of the overlap, counted
    /// from the end of the pattern, but no further than the overlap goes.
    pub open spec fn errors_within(self, q: Query, upto: int) -> int {
        self.whole().errors_after(
            q,
            if upto < self.len {
                upto
            } else {
                self.len
            },
        )
    }

    /// The errors before block `j`, less one for every block before it. A
    /// filter that starts at block `f` permits the walk one error for every
    /// block that it completes; this is the balance of the walk at block
    /// `j`, had it started at the first block.
    pub open spec fn balance(self, q: Query, j: int) -> int {
        self.errors_within(q, block_start(q.blocks, j)) - j
    }
}

/// The errors of a walk never decrease.
pub proof fn lemma_errors_grow(o: Overlap, q: Query, t1: int, t2: int)
    requires
        t1 <= t2,
    ensures
        0 <= o.errors_after(q, t1) <= o.errors_after(q, t2),
    decreases t2 - t1, t2,
{
    if t1 < t2 {
        if t2 > 0 {
            lemma_errors_grow(o, q, t1, t2 - 1);
        }
    } else if t1 > 0 {
        lemma_errors_grow(o, q, t1 - 1, t1 - 1);
    }
}

/// The errors of a walk under a filter are the errors of the whole walk
/// less those in the symbols that the filter leaves out.
pub proof fn lemma_errors_under_filter(o: Overlap, q: Query, t: int)
    requires
        0 <= o.blind,
        0 <= t,
    ensures
        o.errors_after(q, t) == o.whole().errors_after(q, o.blind + t) - o.whole().errors_after(
            q,
            o.blind,
        ),
    decreases t,
{
    if t > 0 {
        lemma_errors_under_filter(o, q, t - 1);
        assert(o.pattern_symbol(q, t - 1) == o.whole().pattern_symbol(q, o.blind + t - 1));
        assert(o.text_symbol(q, t - 1) == o.whole().text_symbol(q, o.blind + t - 1));
    }
}

/// From one block to the next the balance falls by at most 1.
pub proof fn lemma_balance_step(o: Overlap, q: Query, j: int)
    requires
        0 <= j,
        0 <= o.len,
    ensures
        o.balance(q, j + 1) >= o.balance(q, j) - 1,
{
    lemma_block_start_monotone(q.blocks, j, j + 1);
    let from = if block_start(q.blocks, j) < o.len {
        block_start(q.blocks, j)
    } else {
        o.len
    };
    let to = if block_start(q.blocks, j + 1) < o.len {
        block_start(q.blocks, j + 1)
    } else {
        o.len
    };
    lemma_errors_grow(o.whole(), q, from, to);
}

/// Over several blocks the balance falls by at most their number.
pub proof fn lemma_balance_steps(o: Overlap, q: Query, j1: int, j2: int)
    requires
        0 <= j1 <= j2,
        0 <= o.len,
    ensures
        o.balance(q, j2) >= o.balance(q, j1) - (j2 - j1),
    decreases j2 - j1,
{
    if j1 < j2 {
        lemma_balance_steps(o, q, j1, j2 - 1);
        lemma_balance_step(o, q, j2 - 1);
    }
}

/// Searching down from block `upper`, the last block at which the balance
/// is at least `level`: from every later block up to `top` it is below.
pub proof fn lemma_last_block_at_level(o: Overlap, q: Query, top: int, level: int, upper: int) -> (f:
    int)
    requires
        0 <= upper <= top,
        o.balance(q, 0) >= level,
        forall|j: int| upper < j <= top ==> #[trigger] o.balance(q, j) < level,
    ensures
        0 <= f <= upper,
        o.balance(q, f) >= level,
        forall|j: int| f < j <= top ==> #[trigger] o.balance(q, j) < level,
    decreases upper,
{
    if o.balance(q, upper) >= level {
        upper
    } else {
        lemma_last_block_at_level(o, q, top, level, upper - 1)
    }
}

/// The filter for an overlap with few errors. Where the overlap reaches
/// into `covering` blocks and holds at most `covering - spare` errors, there
/// is a block `f` to start from such that the walk, at every later block
/// `j`, has made fewer errors than it has completed blocks, and at the end
/// has `spare` blocks more than errors. At least `spare` of the blocks that
/// the overlap reaches into lie behind `f`.
pub proof fn lemma_filter_exists(o: Overlap, q: Query, covering: int, spare: int) -> (f: int)
    requires
        0 <= o.len,
        spare >= 1,
        0 <= covering,
        o.len <= block_start(q.blocks, covering),
        o.whole().errors_after(q, o.len) <= covering - spare,
    ensures
        0 <= f <= covering - spare,
        forall|j: int| f < j <= covering ==> #[trigger] o.balance(q, j) <= o.balance(q, f) - 1,
        o.balance(q, covering) <= o.balance(q, f) - spare,
{
    let level = o.balance(q, covering) + spare;
    assert(o.balance(q, 0) == 0) by {
        assert(block_start(q.blocks, 0) == 0);
    }
    let f = lemma_last_block_at_level(o, q, covering, level, covering);
    lemma_balance_steps(o, q, f, covering);
    f
}

/// What a searched filter proposes is among the candidates of the query.
pub proof fn lemma_filters_contain(q: Query, ix: IndexModel, upto: int, f: int)
    requires
        0 <= f < upto,
        q.searches_filter(f),
    ensures
        q.explore(ix, q.filter(f), q.root(ix, f)).subset_of(q.filters_below(ix, upto)),
    decreases upto,
{
    if f < upto - 1 {
        lemma_filters_contain(q, ix, upto - 1, f);
    }
}

/// Whether a query is searched under the balanced-block scheme with a
/// parameter `s` of at least 2, by Hamming distance.
pub open spec fn balanced_hamming_query(q: Query, m: KucherovMode) -> bool {
    &&& q.wf()
    &&& q.mode == Mode::Kucherov(m)
    &&& m.s_param >= 2
    &&& q.pattern.len() + m.s_param < i32::MAX
    &&& q.blocks == kucherov_blocks(
        q.pattern.len() as int,
        q.err_rate,
        q.thresh,
        m.s_param as int,
    )
    &&& q.hard_error_cap == q.err_rate.floor_of(q.pattern.len() as int)
    &&& !q.edit_distance
}

/// An overlap within the error rate: it reaches the threshold, and a walk
/// along it makes at most `⌊rate * len⌋` errors. It is an overlap with the
/// start of the other sequence, or, where inclusions are searched, the
/// whole pattern lies inside the other sequence.
pub open spec fn admissible(o: Overlap, q: Query) -> bool {
    &&& o.blind == 0
    &&& o.wf(q)
    &&& q.thresh <= o.len
    &&& o.errors_after(q, o.len) <= q.err_rate.floor_of(o.len)
    &&& o.offset == 0 || (q.inclusions && o.len == q.pattern.len())
}

/// The balanced-block scheme is lossless under Hamming distance: the
/// candidates of a query include the candidate of every overlap within the
/// error rate between the end of the pattern and the start of another
/// sequence, and, where inclusions are searched, of every place within the
/// error rate at which the pattern lies inside another sequence.
///
/// Some filter starts at a block from which on the walk along the overlap
/// has, at every block, made fewer errors than it has completed blocks; the
/// search under that filter follows the walk to its end and proposes the
/// candidate there.
pub proof fn lemma_balanced_scheme_is_lossless(
    q: Query,
    ix: IndexModel,
    m: KucherovMode,
    o: Overlap,
)
    requires
        balanced_hamming_query(q, m),
        indexes_corpus(ix, q),
        admissible(o, q),
    ensures
        q.candidates(ix).contains(o.candidate(q)),
{
    let patt_len = q.pattern.len() as int;
    let spare = m.s_param as int;
    let total = q.blocks.len() as int;
    let covering = blocks_covering(q.blocks, o.len);
    lemma_kucherov_cover(patt_len, q.err_rate, q.thresh, spare, o.len);
    lemma_kucherov_cover(patt_len, q.err_rate, q.thresh, spare, patt_len);
    lemma_block_id_bounds(q.blocks, o.len - 1);
    lemma_rate_floor_bounds(q.err_rate, o.len);
    assert(q.err_rate.num * o.len <= q.err_rate.num * patt_len) by (nonlinear_arith)
        requires
            o.len <= patt_len,
            q.err_rate.num >= 0,
    ;
    lemma_div_monotone(q.err_rate.num * o.len, q.err_rate.num * patt_len, q.err_rate.den as int);
    let f = lemma_filter_exists(o, q, covering, spare);
    let s = q.filter(f);
    let blind = block_start(q.blocks, f);
    let walk = o.under(blind);
    // the filter leaves out less than the overlap
    lemma_block_start_monotone(q.blocks, f, covering - 1);
    lemma_block_start_monotone(q.blocks, 0, f);
    assert(0 <= blind <= o.len - 1);
    assert(walk.wf(q));
    assert(q.searches_filter(f));
    lemma_rate_stretch_bounds(q.err_rate, blind);
    lemma_stretched_monotone(q.err_rate, blind, patt_len);
    assert(s.blind_blocks == f && s.blind_a_chars == blind && s.generous_blind_chars >= blind);
    lemma_errors_grow(o, q, blind, o.len);
    lemma_errors_grow(o, q, 0, blind);
    // the walk stays within what the filter permits
    assert(walk.within_budget(q, s)) by {
        assert forall|t: int| 0 <= t < walk.steps() implies #[trigger] walk.errors_after(q, t + 1)
            <= q.permitted_errors(s, q.pattern.len() - 1 - walk.blind - t) by {
            let offset = blind + t;
            let j = block_id_at(q.blocks, offset);
            lemma_block_id_at_least(q.blocks, offset, f);
            lemma_block_id_bounds(q.blocks, offset);
            lemma_block_id_monotone(q.blocks, offset, o.len - 1);
            lemma_errors_under_filter(walk, q, t + 1);
            let reach = if block_start(q.blocks, j + 1) < o.len {
                block_start(q.blocks, j + 1)
            } else {
                o.len
            };
            lemma_errors_grow(o, q, offset + 1, reach);
            lemma_errors_grow(o, q, reach, o.len);
            assert(o.balance(q, j + 1) <= o.balance(q, f) - 1);
            assert(walk.errors_after(q, t + 1) <= j - f);
            assert(q.completed_blocks(s, patt_len - 1 - blind - t) == j - f);
        }
    }
    lemma_walk_is_searched(walk, q, ix, s, walk.steps());
    // at its end the walk may propose candidates
    let last = walk.node(q, ix, walk.steps());
    assert(q.may_emit(s, last)) by {
        lemma_errors_under_filter(walk, q, walk.steps());
        let completed = q.completed_blocks(s, last.p_i);
        if o.len < patt_len {
            lemma_block_id_monotone(q.blocks, o.len - 1, o.len);
        }
        assert(completed >= covering - 1 - f);
        assert(last.errors <= covering - f - spare);
    }
    if o.offset == 0 {
        lemma_walk_ends_in_candidate(walk, q, ix, s);
    } else {
        lemma_walk_ends_in_inclusion(walk, q, ix, s);
    }
    assert(walk.node(q, ix, 0) == q.root(ix, f)) by {
        assert(walk.walked(q, 0).len() == 0);
    }
    lemma_filters_contain(q, ix, total, f);
    assert(walk.candidate(q) == o.candidate(q));
}

/// The query of a sequence that can be searched is well-formed.
pub proof fn lemma_query_wf(pattern: Seq<u8>, config: Config, maps: Maps, id_a: int, mode: Mode)
    requires
        config.wf(),
        maps.wf(),
        0 <= id_a < maps.indexes@.len(),
        search_fits(pattern.len() as int, config, mode),
    ensures
        query_of(pattern, config, maps, id_a, mode).wf(),
{
    let q = query_of(pattern, config, maps, id_a, mode);
    let patt_len = pattern.len() as int;
    let longest = max_b_len(config.err_rate, config.edit_distance, patt_len);
    lemma_rate_stretch_bounds(config.err_rate, patt_len);
    lemma_mode_blocks_shape(mode, patt_len, config.err_rate, config.thresh as int);
    lemma_rate_floor_bounds(config.err_rate, longest);
}

/// A walk makes at least as many errors as the Hamming distance of what it
/// has read counts: it counts every pair of different symbols, and the
/// pairs of unreadable symbols besides.
pub proof fn lemma_walk_counts_hamming(o: Overlap, q: Query, t: int)
    requires
        o.blind == 0,
        0 <= t <= o.len,
        o.len <= q.pattern.len(),
        0 <= o.offset,
        o.offset + o.len <= o.other(q).len(),
    ensures
        hamming_spec(
            q.pattern.subrange(q.pattern.len() - t, q.pattern.len() as int),
            o.other(q).subrange(o.offset + o.len - t, o.offset + o.len),
        ) <= o.errors_after(q, t),
    decreases t,
{
    let patt_len = q.pattern.len() as int;
    let end = o.offset + o.len;
    let a = q.pattern.subrange(patt_len - t, patt_len);
    let b = o.other(q).subrange(end - t, end);
    if t > 0 {
        lemma_walk_counts_hamming(o, q, t - 1);
        lemma_hamming_from_the_front(a, b);
        assert(a.drop_first() =~= q.pattern.subrange(patt_len - (t - 1), patt_len));
        assert(b.drop_first() =~= o.other(q).subrange(end - (t - 1), end));
        assert(a[0] == o.pattern_symbol(q, t - 1));
        assert(b[0] == o.text_symbol(q, t - 1));
    } else {
        assert(a.len() == 0);
    }
}

/// No overlap is missed. Under the balanced-block scheme with a parameter
/// of at least 2 and under Hamming distance, the solutions of a sequence
/// include the solution of every overlap within the error rate between its
/// stored end and the stored start of another sequence; and that solution
/// is an overlap of the two sequences as they are read.
pub proof fn lemma_every_overlap_is_solved(
    config: Config,
    maps: Maps,
    id_a: int,
    index: TextIndex,
    m: KucherovMode,
    o: Overlap,
) -> (found: Solution)
    requires
        solvable(config, maps, id_a, index, Mode::Kucherov(m)),
        m.s_param >= 2,
        !config.edit_distance,
        config.reversals ==> maps.companions_wf(),
        indexes_corpus(
            index@,
            query_of(maps.sequence(id_a), config, maps, id_a, Mode::Kucherov(m)),
        ),
        admissible(o, query_of(maps.sequence(id_a), config, maps, id_a, Mode::Kucherov(m))),
    ensures
        solutions_of(config, maps, id_a, index, Mode::Kucherov(m)).contains(found),
        found == canonical_solution(
            o.candidate(query_of(maps.sequence(id_a), config, maps, id_a, Mode::Kucherov(m))),
            id_a,
            maps.sequence(id_a).len() as int,
            maps.sequence(o.id_b).len() as int,
            found.errors,
            config.reversals,
        ),
        found.errors <= o.errors_after(
            query_of(maps.sequence(id_a), config, maps, id_a, Mode::Kucherov(m)),
            o.len,
        ),
        found.errors == hamming_spec(
            maps.sequence(id_a).subrange(
                maps.sequence(id_a).len() - o.len,
                maps.sequence(id_a).len() as int,
            ),
            maps.sequence(o.id_b).subrange(o.offset, o.offset + o.len),
        ),
        genuine_overlap(found, config, maps),
{
    let mode = Mode::Kucherov(m);
    let pattern = maps.sequence(id_a);
    let q = query_of(pattern, config, maps, id_a, mode);
    let c = o.candidate(q);
    lemma_query_wf(pattern, config, maps, id_a, mode);
    lemma_rate_stretch_bounds(config.err_rate, pattern.len() as int);
    lemma_balanced_scheme_is_lossless(q, index@, m, o);
    maps.lemma_sequence_bounds(id_a);
    maps.lemma_sequence_bounds(o.id_b);
    vstd::std_specs::vec::axiom_spec_len(&maps.indexes);
    assert(verifiable(id_a, c, config, maps));
    let part_a = aligned_a(c, maps, id_a);
    let part_b = aligned_b(c, maps);
    lemma_walk_counts_hamming(o, q, o.len);
    assert(part_a == pattern.subrange(pattern.len() - o.len, pattern.len() as int));
    assert(part_b == o.other(q).subrange(o.offset + o.len - o.len, o.offset + o.len));
    lemma_hamming_bounds(part_a, part_b);
    assert(verdict(id_a, c, config, maps) is Some);
    lemma_verdict_is_genuine(id_a, c, config, maps);
    verdict(id_a, c, config, maps)->0
}

/// Where the text symbols that a walk reads are all readable, the walk
/// makes exactly as many errors as the Hamming distance counts.
pub proof fn lemma_walk_is_hamming(o: Overlap, q: Query, t: int)
    requires
        o.blind == 0,
        0 <= t <= o.len,
        o.len <= q.pattern.len(),
        0 <= o.offset,
        o.offset + o.len <= o.other(q).len(),
        forall|r: int| o.offset <= r < o.offset + o.len ==> #[trigger] o.other(q)[r] != READ_ERR,
    ensures
        hamming_spec(
            q.pattern.subrange(q.pattern.len() - t, q.pattern.len() as int),
            o.other(q).subrange(o.offset + o.len - t, o.offset + o.len),
        ) == o.errors_after(q, t),
    decreases t,
{
    let patt_len = q.pattern.len() as int;
    let end = o.offset + o.len;
    let a = q.pattern.subrange(patt_len - t, patt_len);
    let b = o.other(q).subrange(end - t, end);
    if t > 0 {
        lemma_walk_is_hamming(o, q, t - 1);
        lemma_hamming_from_the_front(a, b);
        assert(a.drop_first() =~= q.pattern.subrange(patt_len - (t - 1), patt_len));
        assert(b.drop_first() =~= o.other(q).subrange(end - (t - 1), end));
        assert(a[0] == o.pattern_symbol(q, t - 1));
        assert(b[0] == o.text_symbol(q, t - 1));
        assert(o.other(q)[end - t] != READ_ERR);
    } else {
        assert(a.len() == 0);
    }
}

/// Whether a solution joins two sequences end to start: as they are read,
/// one of them ends with its aligned part and the other starts with its
/// aligned part.
pub open spec fn end_to_start(s: Solution, maps: Maps) -> bool {
    let a_len = maps.external_sequence(s.id_a as int).len() as int;
    let b_len = maps.external_sequence(s.id_b as int).len() as int;
    ||| (s.overhang_left_a >= 0 && s.overhang_left_a + s.overlap_a == a_len)
    ||| (s.overhang_left_a <= 0 && -s.overhang_left_a + s.overlap_b == b_len)
}

/// Whether every symbol of a string is a symbol of the alphabet and
/// readable.
pub open spec fn plain(part: Seq<u8>, alphabet: Seq<u8>) -> bool {
    forall|r: int| 0 <= r < part.len() ==> alphabet.contains(#[trigger] part[r]) && part[r] != READ_ERR
}

/// What the theorem on overlaps as they are read assumes of a run: the
/// balanced-block scheme with a parameter of at least 2, Hamming distance,
/// no reverse complements, both sequences of the solution searchable, and
/// an index of the corpus.
pub open spec fn plain_run(
    config: Config,
    maps: Maps,
    index: TextIndex,
    m: KucherovMode,
    s: Solution,
) -> bool {
    &&& m.s_param >= 2
    &&& !config.edit_distance
    &&& !config.reversals
    &&& solvable(config, maps, s.id_a as int, index, Mode::Kucherov(m))
    &&& solvable(config, maps, s.id_b as int, index, Mode::Kucherov(m))
    &&& indexes_corpus(
        index@,
        query_of(maps.sequence(s.id_a as int), config, maps, s.id_a as int, Mode::Kucherov(m)),
    )
}

/// An overlap in which, as read, the first sequence ends where the second
/// starts is found by the search for the second sequence: as stored, the
/// second sequence ends where the first starts.
proof fn lemma_found_from_second(
    config: Config,
    maps: Maps,
    index: TextIndex,
    m: KucherovMode,
    s: Solution,
)
    requires
        plain_run(config, maps, index, m, s),
        genuine_overlap(s, config, maps),
        config.thresh <= s.overlap_a,
        s.overhang_left_a >= 0,
        s.overhang_left_a + s.overlap_a == maps.sequence(s.id_a as int).len(),
        plain(
            solution_part_a(s, maps.external_sequence(s.id_a as int)),
            config.spec_alphabet(),
        ),
    ensures
        solutions_of(config, maps, s.id_b as int, index, Mode::Kucherov(m)).contains(s),
{
    let stored_a = maps.sequence(s.id_a as int);
    let stored_b = maps.sequence(s.id_b as int);
    let len = s.overlap_a as int;
    let part_a = solution_part_a(s, maps.external_sequence(s.id_a as int));
    let part_b = solution_part_b(s, maps.external_sequence(s.id_b as int));
    maps.lemma_sequence_bounds(s.id_a as int);
    maps.lemma_sequence_bounds(s.id_b as int);
    assert(stored_a.reverse().len() == stored_a.len() && stored_b.reverse().len()
        == stored_b.len());
    let query = s.id_b as int;
    let q = query_of(stored_b, config, maps, query, Mode::Kucherov(m));
    let o = Overlap { id_b: s.id_a as int, offset: 0, len, blind: 0 };
    let mine = stored_b.subrange(stored_b.len() - len, stored_b.len() as int);
    let theirs = stored_a.subrange(0, len);
    lemma_reverse_subrange(stored_a, 0, len);
    lemma_reverse_subrange(stored_b, stored_b.len() - len, stored_b.len() as int);
    assert(part_a == theirs.reverse());
    assert(part_b == mine.reverse());
    assert forall|r: int| 0 <= r < len implies q.alphabet.contains(#[trigger] o.other(q)[r])
        && o.other(q)[r] != READ_ERR by {
        assert(theirs[r] == theirs.reverse()[len - 1 - r]);
        assert(q.alphabet.contains(part_a[len - 1 - r]));
    }
    assert(o.wf(q));
    lemma_walk_is_hamming(o, q, len);
    lemma_hamming_reversed(mine, theirs);
    lemma_hamming_symmetric(part_a, part_b);
    assert(o.errors_after(q, len) == s.errors);
    let found = lemma_every_overlap_is_solved(config, maps, query, index, m, o);
    lemma_walk_counts_hamming(o, q, len);
    assert(found.errors == s.errors);
    assert(found == s);
}

/// An overlap in which, as read, the second sequence ends where the first
/// starts is found by the search for the first sequence: as stored, the
/// first sequence ends where the second starts.
proof fn lemma_found_from_first(
    config: Config,
    maps: Maps,
    index: TextIndex,
    m: KucherovMode,
    s: Solution,
)
    requires
        plain_run(config, maps, index, m, s),
        genuine_overlap(s, config, maps),
        config.thresh <= s.overlap_a,
        s.overhang_left_a <= 0,
        -s.overhang_left_a + s.overlap_b == maps.sequence(s.id_b as int).len(),
        plain(
            solution_part_b(s, maps.external_sequence(s.id_b as int)),
            config.spec_alphabet(),
        ),
    ensures
        solutions_of(config, maps, s.id_a as int, index, Mode::Kucherov(m)).contains(s),
{
    let stored_a = maps.sequence(s.id_a as int);
    let stored_b = maps.sequence(s.id_b as int);
    let len = s.overlap_a as int;
    let part_a = solution_part_a(s, maps.external_sequence(s.id_a as int));
    let part_b = solution_part_b(s, maps.external_sequence(s.id_b as int));
    maps.lemma_sequence_bounds(s.id_a as int);
    maps.lemma_sequence_bounds(s.id_b as int);
    assert(stored_a.reverse().len() == stored_a.len() && stored_b.reverse().len()
        == stored_b.len());
    let query = s.id_a as int;
    let q = query_of(stored_a, config, maps, query, Mode::Kucherov(m));
    let o = Overlap { id_b: s.id_b as int, offset: 0, len, blind: 0 };
    let mine = stored_a.subrange(stored_a.len() - len, stored_a.len() as int);
    let theirs = stored_b.subrange(0, len);
    lemma_reverse_subrange(stored_b, 0, len);
    lemma_reverse_subrange(stored_a, stored_a.len() - len, stored_a.len() as int);
    assert(part_a == mine.reverse());
    assert(part_b == theirs.reverse());
    assert forall|r: int| 0 <= r < len implies q.alphabet.contains(#[trigger] o.other(q)[r])
        && o.other(q)[r] != READ_ERR by {
        assert(theirs[r] == theirs.reverse()[len - 1 - r]);
        assert(q.alphabet.contains(part_b[len - 1 - r]));
    }
    assert(o.wf(q));
    lemma_walk_is_hamming(o, q, len);
    lemma_hamming_reversed(mine, theirs);
    assert(o.errors_after(q, len) == s.errors);
    let found = lemma_every_overlap_is_solved(config, maps, query, index, m, o);
    lemma_walk_counts_hamming(o, q, len);
    assert(found.errors == s.errors);
    assert(found == s);
}

/// The solutions are exactly the overlaps. Under the balanced-block scheme
/// with a parameter of at least 2, under Hamming distance and without
/// reverse complements, every overlap of two sequences end to start that
/// reaches the threshold and lies within the error rate is among the
/// solutions of one of the two sequences, provided that the aligned parts
/// hold readable symbols of the alphabet only.
pub proof fn lemma_every_genuine_overlap_is_found(
    config: Config,
    maps: Maps,
    index: TextIndex,
    m: KucherovMode,
    s: Solution,
) -> (query: int)
    requires
        plain_run(config, maps, index, m, s),
        genuine_overlap(s, config, maps),
        end_to_start(s, maps),
        config.thresh <= s.overlap_a,
        plain(
            solution_part_a(s, maps.external_sequence(s.id_a as int)),
            config.spec_alphabet(),
        ),
        plain(
            solution_part_b(s, maps.external_sequence(s.id_b as int)),
            config.spec_alphabet(),
        ),
    ensures
        query == s.id_a || query == s.id_b,
        solutions_of(config, maps, query, index, Mode::Kucherov(m)).contains(s),
{
    let stored_a = maps.sequence(s.id_a as int);
    let stored_b = maps.sequence(s.id_b as int);
    assert(stored_a.reverse().len() == stored_a.len() && stored_b.reverse().len()
        == stored_b.len());
    if s.overhang_left_a >= 0 && s.overhang_left_a + s.overlap_a == stored_a.len() {
        lemma_found_from_second(config, maps, index, m, s);
        s.id_b as int
    } else {
        lemma_found_from_first(config, maps, index, m, s);
        s.id_a as int
    }
}

/// What the theorem on overlaps read either way assumes of a run: the
/// balanced-block scheme with a parameter of at least 2, Hamming distance,
/// reverse complements stored beside their sequences, the first sequence of
/// the solution and its companion searchable, and an index of the corpus.
pub open spec fn run_either_way(
    config: Config,
    maps: Maps,
    index: TextIndex,
    m: KucherovMode,
    s: Solution,
) -> bool {
    &&& m.s_param >= 2
    &&& !config.edit_distance
    &&& config.reversals
    &&& maps.companions_wf()
    &&& s.id_b as int != companion_of(s.id_a as int)
    &&& solvable(config, maps, s.id_a as int, index, Mode::Kucherov(m))
    &&& solvable(config, maps, companion_of(s.id_a as int), index, Mode::Kucherov(m))
    &&& indexes_corpus(
        index@,
        query_of(maps.sequence(s.id_a as int), config, maps, s.id_a as int, Mode::Kucherov(m)),
    )
}

/// The complement of a readable symbol of the alphabet is one.
pub proof fn lemma_complement_is_plain(config: Config, x: u8)
    requires
        config.spec_alphabet().contains(x),
        x != READ_ERR,
    ensures
        config.spec_alphabet().contains(complement_of(x)),
        complement_of(x) != READ_ERR,
{
    let alphabet = config.spec_alphabet();
    let k = choose|k: int| 0 <= k < alphabet.len() && alphabet[k] == x;
    if config.n_alphabet {
        assert(alphabet[0] == 65 && alphabet[1] == 67 && alphabet[2] == 71 && alphabet[4] == 84);
    } else {
        assert(alphabet[0] == 65 && alphabet[1] == 67 && alphabet[2] == 71 && alphabet[3] == 84);
    }
}

/// As stored, the companion of a sequence is the complement of the sequence
/// as it is read.
pub proof fn lemma_companion_stored(maps: Maps, id: int)
    requires
        maps.wf(),
        maps.companions_wf(),
        0 <= id < maps.indexes@.len(),
    ensures
        0 <= companion_of(id) < maps.indexes@.len(),
        maps.sequence(companion_of(id)) == complement_seq(maps.external_sequence(id)),
        maps.sequence(companion_of(id)).len() == maps.external_sequence(id).len(),
        maps.external_sequence(id).len() == maps.sequence(id).len(),
        maps.sequence(id).len() <= i32::MAX,
{
    lemma_companion_reading(maps, id);
    maps.lemma_sequence_bounds(id);
    let other = companion_of(id);
    assert(maps.sequence(other) =~= maps.external_sequence(other).reverse());
    assert(complement_seq(maps.sequence(id)).reverse() =~= complement_seq(
        maps.external_sequence(id),
    ));
}

/// The errors of a walk along complemented parts are the Hamming distance
/// of the parts, where the parts hold readable symbols of the alphabet only.
proof fn lemma_complemented_walk(
    o: Overlap,
    q: Query,
    config: Config,
    part_a: Seq<u8>,
    part_b: Seq<u8>,
)
    requires
        o.blind == 0,
        o.offset == 0,
        part_a.len() == o.len,
        part_b.len() == o.len,
        o.len <= q.pattern.len(),
        o.len <= o.other(q).len(),
        q.alphabet == config.spec_alphabet(),
        q.pattern.subrange(q.pattern.len() - o.len, q.pattern.len() as int) == complement_seq(
            part_a,
        ),
        o.other(q).subrange(0, o.len) == complement_seq(part_b),
        plain(part_b, config.spec_alphabet()),
    ensures
        o.errors_after(q, o.len) == hamming_spec(part_a, part_b),
        forall|r: int| 0 <= r < o.len ==> q.alphabet.contains(#[trigger] o.other(q)[r]),
{
    let theirs = o.other(q).subrange(0, o.len);
    assert forall|r: int| 0 <= r < o.len implies q.alphabet.contains(#[trigger] o.other(q)[r])
        && o.other(q)[r] != READ_ERR by {
        assert(o.other(q)[r] == theirs[r]);
        assert(theirs[r] == complement_of(part_b[r]));
        lemma_complement_is_plain(config, part_b[r]);
    }
    lemma_walk_is_hamming(o, q, o.len);
    lemma_distance_complemented(part_a, part_b);
}

/// The solution of an overlap between the companions of two sequences, the
/// first of which has an even id: it names the two sequences themselves,
/// with the overhangs of the companions' stored pieces.
proof fn lemma_solution_by_companions(
    id_a: int,
    id_b: int,
    a_len: int,
    b_len: int,
    len: int,
    errors: u32,
) -> (sol: Solution)
    requires
        0 <= id_a < id_b < usize::MAX - 1,
        !is_reversed_id(id_a),
        id_b != companion_of(id_a),
        1 <= len <= a_len <= i32::MAX,
        len <= b_len <= i32::MAX,
    ensures
        sol == canonical_solution(
            Candidate {
                id_b: companion_of(id_b) as usize,
                overlap_a: len as usize,
                overlap_b: len as usize,
                overhang_left_a: (a_len - len) as i32,
            },
            companion_of(id_a),
            a_len,
            b_len,
            errors,
            true,
        ),
        sol.id_a == id_a,
        sol.id_b == id_b,
        sol.overhang_left_a == a_len - len,
        sol.overhang_right_b == b_len - len,
        sol.overlap_a == len,
        sol.overlap_b == len,
        sol.errors == errors,
        sol.orientation == (if is_reversed_id(id_b) {
            Orientation::Reversed
        } else {
            Orientation::Normal
        }),
{
    let c = Candidate {
        id_b: companion_of(id_b) as usize,
        overlap_a: len as usize,
        overlap_b: len as usize,
        overhang_left_a: (a_len - len) as i32,
    };
    lemma_canonical_pieces(c, companion_of(id_a), a_len, b_len, errors, true);
    canonical_solution(c, companion_of(id_a), a_len, b_len, errors, true)
}

/// The query for the companion of the first sequence of a solution.
pub open spec fn companion_query(config: Config, maps: Maps, m: KucherovMode, s: Solution) -> Query {
    query_of(
        maps.sequence(companion_of(s.id_a as int)),
        config,
        maps,
        companion_of(s.id_a as int),
        Mode::Kucherov(m),
    )
}

/// The overlap of a solution as the search for the companion of its first
/// sequence meets it: with the start of the companion of its second
/// sequence.
pub open spec fn companion_overlap(s: Solution) -> Overlap {
    Overlap { id_b: companion_of(s.id_b as int), offset: 0, len: s.overlap_a as int, blind: 0 }
}

/// Read the other way, an overlap in which the first sequence ends where
/// the second starts is an overlap within the error rate for the search
/// from the companion of the first sequence, with the same errors.
proof fn lemma_companion_overlap_is_admissible(
    config: Config,
    maps: Maps,
    index: TextIndex,
    m: KucherovMode,
    s: Solution,
)
    requires
        run_either_way(config, maps, index, m, s),
        genuine_overlap(s, config, maps),
        config.thresh <= s.overlap_a,
        s.overhang_left_a >= 0,
        s.overhang_left_a + s.overlap_a == maps.sequence(s.id_a as int).len(),
        plain(
            solution_part_a(s, maps.external_sequence(s.id_a as int)),
            config.spec_alphabet(),
        ),
        plain(
            solution_part_b(s, maps.external_sequence(s.id_b as int)),
            config.spec_alphabet(),
        ),
    ensures
        admissible(companion_overlap(s), companion_query(config, maps, m, s)),
        companion_overlap(s).errors_after(
            companion_query(config, maps, m, s),
            s.overlap_a as int,
        ) == s.errors,
        hamming_spec(
            maps.sequence(companion_of(s.id_a as int)).subrange(
                maps.sequence(companion_of(s.id_a as int)).len() - s.overlap_a,
                maps.sequence(companion_of(s.id_a as int)).len() as int,
            ),
            maps.sequence(companion_of(s.id_b as int)).subrange(0, s.overlap_a as int),
        ) == s.errors,
        maps.sequence(companion_of(s.id_a as int)).len() == maps.sequence(s.id_a as int).len(),
        maps.sequence(companion_of(s.id_b as int)).len() == maps.sequence(s.id_b as int).len(),
        0 <= companion_of(s.id_b as int) < maps.indexes@.len(),
{
    let id_a = s.id_a as int;
    let id_b = s.id_b as int;
    let reading_a = maps.external_sequence(id_a);
    let reading_b = maps.external_sequence(id_b);
    let len = s.overlap_a as int;
    let part_a = solution_part_a(s, reading_a);
    let part_b = solution_part_b(s, reading_b);
    let q = companion_query(config, maps, m, s);
    let o = companion_overlap(s);
    lemma_companion_stored(maps, id_a);
    lemma_companion_stored(maps, id_b);
    assert(q.pattern.subrange(q.pattern.len() - len, q.pattern.len() as int) == complement_seq(
        part_a,
    )) by {
        lemma_complement_subrange(reading_a, reading_a.len() - len, reading_a.len() as int);
    }
    assert(o.other(q).subrange(0, len) == complement_seq(part_b)) by {
        lemma_complement_subrange(reading_b, 0, len);
    }
    lemma_complemented_walk(o, q, config, part_a, part_b);
    lemma_distance_complemented(part_a, part_b);
}

/// Where reverse complements are searched, an overlap in which, as read,
/// the first sequence ends where the second starts is found by the search
/// for the companion of the first sequence: read the other way, the second
/// ends where the first starts.
proof fn lemma_found_from_companion(
    config: Config,
    maps: Maps,
    index: TextIndex,
    m: KucherovMode,
    s: Solution,
)
    requires
        run_either_way(config, maps, index, m, s),
        genuine_overlap(s, config, maps),
        config.thresh <= s.overlap_a,
        s.overhang_left_a >= 0,
        s.overhang_left_a + s.overlap_a == maps.sequence(s.id_a as int).len(),
        plain(
            solution_part_a(s, maps.external_sequence(s.id_a as int)),
            config.spec_alphabet(),
        ),
        plain(
            solution_part_b(s, maps.external_sequence(s.id_b as int)),
            config.spec_alphabet(),
        ),
    ensures
        solutions_of(
            config,
            maps,
            companion_of(s.id_a as int),
            index,
            Mode::Kucherov(m),
        ).contains(s),
{
    let id_a = s.id_a as int;
    let id_b = s.id_b as int;
    let query = companion_of(id_a);
    let len = s.overlap_a as int;
    let q = companion_query(config, maps, m, s);
    let o = companion_overlap(s);
    let a_len = maps.sequence(id_a).len() as int;
    let b_len = maps.sequence(id_b).len() as int;
    lemma_companion_overlap_is_admissible(config, maps, index, m, s);
    let found = lemma_every_overlap_is_solved(config, maps, query, index, m, o);
    assert(found.errors == s.errors);
    vstd::std_specs::vec::axiom_spec_len(&maps.indexes);
    maps.lemma_sequence_bounds(id_a);
    maps.lemma_sequence_bounds(id_b);
    let expected = lemma_solution_by_companions(id_a, id_b, a_len, b_len, len, s.errors);
    assert(found == expected);
    assert(expected == s) by {
        assert(maps.sequence(id_a).reverse().len() == a_len);
        assert(maps.sequence(id_b).reverse().len() == b_len);
    }
}

/// Where reverse complements are searched, an overlap in which, as read,
/// the second sequence ends where the first starts is found by the search
/// for the first sequence.
proof fn lemma_found_from_forward(
    config: Config,
    maps: Maps,
    index: TextIndex,
    m: KucherovMode,
    s: Solution,
)
    requires
        run_either_way(config, maps, index, m, s),
        genuine_overlap(s, config, maps),
        config.thresh <= s.overlap_a,
        s.overhang_left_a <= 0,
        -s.overhang_left_a + s.overlap_b == maps.sequence(s.id_b as int).len(),
        plain(
            solution_part_b(s, maps.external_sequence(s.id_b as int)),
            config.spec_alphabet(),
        ),
    ensures
        solutions_of(config, maps, s.id_a as int, index, Mode::Kucherov(m)).contains(s),
{
    let stored_a = maps.sequence(s.id_a as int);
    let stored_b = maps.sequence(s.id_b as int);
    let len = s.overlap_a as int;
    let part_a = solution_part_a(s, maps.external_sequence(s.id_a as int));
    let part_b = solution_part_b(s, maps.external_sequence(s.id_b as int));
    maps.lemma_sequence_bounds(s.id_a as int);
    maps.lemma_sequence_bounds(s.id_b as int);
    assert(stored_a.reverse().len() == stored_a.len() && stored_b.reverse().len()
        == stored_b.len());
    let query = s.id_a as int;
    let q = query_of(stored_a, config, maps, query, Mode::Kucherov(m));
    let o = Overlap { id_b: s.id_b as int, offset: 0, len, blind: 0 };
    let mine = stored_a.subrange(stored_a.len() - len, stored_a.len() as int);
    let theirs = stored_b.subrange(0, len);
    lemma_reverse_subrange(stored_b, 0, len);
    lemma_reverse_subrange(stored_a, stored_a.len() - len, stored_a.len() as int);
    assert(part_a == mine.reverse());
    assert(part_b == theirs.reverse());
    assert forall|r: int| 0 <= r < len implies q.alphabet.contains(#[trigger] o.other(q)[r])
        && o.other(q)[r] != READ_ERR by {
        assert(theirs[r] == theirs.reverse()[len - 1 - r]);
        assert(q.alphabet.contains(part_b[len - 1 - r]));
    }
    assert(o.wf(q));
    lemma_walk_is_hamming(o, q, len);
    lemma_hamming_reversed(mine, theirs);
    assert(o.errors_after(q, len) == s.errors);
    let found = lemma_every_overlap_is_solved(config, maps, query, index, m, o);
    lemma_walk_counts_hamming(o, q, len);
    assert(found.errors == s.errors);
    assert(found == s);
}

/// The solutions are exactly the overlaps, read either way. Under the
/// balanced-block scheme with a parameter of at least 2 and under Hamming
/// distance, where reverse complements are searched, every overlap end to
/// start between a sequence and another sequence or the reverse complement
/// of another sequence, that reaches the threshold and lies within the
/// error rate, is among the solutions of the first sequence or of its
/// companion, provided that the aligned parts hold readable symbols of the
/// alphabet only.
pub proof fn lemma_every_genuine_overlap_is_found_either_way(
    config: Config,
    maps: Maps,
    index: TextIndex,
    m: KucherovMode,
    s: Solution,
) -> (query: int)
    requires
        run_either_way(config, maps, index, m, s),
        genuine_overlap(s, config, maps),
        end_to_start(s, maps),
        config.thresh <= s.overlap_a,
        plain(
            solution_part_a(s, maps.external_sequence(s.id_a as int)),
            config.spec_alphabet(),
        ),
        plain(
            solution_part_b(s, maps.external_sequence(s.id_b as int)),
            config.spec_alphabet(),
        ),
    ensures
        query == s.id_a || query == companion_of(s.id_a as int),
        solutions_of(config, maps, query, index, Mode::Kucherov(m)).contains(s),
{
    let stored_a = maps.sequence(s.id_a as int);
    let stored_b = maps.sequence(s.id_b as int);
    assert(stored_a.reverse().len() == stored_a.len() && stored_b.reverse().len()
        == stored_b.len());
    if s.overhang_left_a >= 0 && s.overhang_left_a + s.overlap_a == stored_a.len() {
        lemma_found_from_companion(config, maps, index, m, s);
        companion_of(s.id_a as int)
    } else {
        lemma_found_from_forward(config, maps, index, m, s);
        s.id_a as int
    }
}

} // verus!
