//! What the rows of the index mean.
//!
//! The suffix array lists the suffixes of the text in order, so the suffixes
//! that start with a string `w` fill a range of rows. This module proves that
//! backward extension by a symbol `a` turns the range of `w` into the range
//! of `a w`, and hence that extending row by row from the range of all rows
//! finds exactly the places at which a pattern occurs in the text.

use vstd::prelude::*;
use vstd::relations::injective_on;
use vstd::set_lib::{
    lemma_int_range,
    lemma_map_size,
    lemma_set_disjoint_lens,
    lemma_subset_equality,
    set_int_range,
};
use crate::index::{
    bwt_of,
    count_below,
    ends_with_least,
    is_suffix_array,
    lemma_counts_fit,
    lemma_rank_monotone,
    lex_less,
    rank,
    IndexModel,
    Interval,
};

verus! {

/// No string comes before itself.
pub proof fn lemma_lex_irreflexive(x: Seq<u8>)
    ensures
        !lex_less(x, x),
    decreases x.len(),
{
    if x.len() > 0 {
        lemma_lex_irreflexive(x.drop_first());
    }
}

/// Of two strings at most one comes before the other.
pub proof fn lemma_lex_asymmetric(x: Seq<u8>, y: Seq<u8>)
    requires
        lex_less(x, y),
    ensures
        !lex_less(y, x),
    decreases x.len(),
{
    if x.len() > 0 && y.len() > 0 && x[0] == y[0] {
        lemma_lex_asymmetric(x.drop_first(), y.drop_first());
    }
}

/// Behind a common first symbol two strings are ordered as their rests.
pub proof fn lemma_lex_prepend(a: u8, x: Seq<u8>, y: Seq<u8>)
    ensures
        lex_less(seq![a] + x, seq![a] + y) == lex_less(x, y),
{
    assert((seq![a] + x).drop_first() =~= x);
    assert((seq![a] + y).drop_first() =~= y);
}

/// The suffix of the text in row `i`.
pub open spec fn suffix_in_row(text: Seq<u8>, sa: Seq<usize>, i: int) -> Seq<u8> {
    text.skip(sa[i] as int)
}

/// Rows are ordered as their suffixes, and no two rows hold the same
/// suffix.
pub proof fn lemma_row_order(text: Seq<u8>, sa: Seq<usize>, i: int, j: int)
    requires
        is_suffix_array(text, sa),
        0 <= i < sa.len(),
        0 <= j < sa.len(),
    ensures
        lex_less(suffix_in_row(text, sa, i), suffix_in_row(text, sa, j)) == (i < j),
        (sa[i] == sa[j]) == (i == j),
{
    let si = suffix_in_row(text, sa, i);
    let sj = suffix_in_row(text, sa, j);
    if i < j {
        assert(lex_less(text.skip(sa[i] as int), text.skip(sa[j] as int)));
        lemma_lex_irreflexive(si);
    } else if j < i {
        assert(lex_less(text.skip(sa[j] as int), text.skip(sa[i] as int)));
        lemma_lex_asymmetric(sj, si);
        lemma_lex_irreflexive(si);
    } else {
        lemma_lex_irreflexive(si);
    }
}

/// Every position of the text has its row.
pub proof fn lemma_every_position_has_a_row(text: Seq<u8>, sa: Seq<usize>, p: int)
    requires
        is_suffix_array(text, sa),
        0 <= p < text.len(),
    ensures
        exists|i: int| 0 <= i < sa.len() && #[trigger] sa[i] == p,
{
    let n = text.len() as int;
    let rows = set_int_range(0, n);
    let f = |i: int| sa[i] as int;
    lemma_int_range(0, n);
    assert(injective_on(f, rows)) by {
        assert forall|x1: int, x2: int|
            rows.contains(x1) && rows.contains(x2) && #[trigger] f(x1) == #[trigger] f(
                x2,
            ) implies x1 == x2 by {
            lemma_row_order(text, sa, x1, x2);
        }
    }
    let image = rows.map(f);
    lemma_map_size(rows, image, f);
    assert(image.subset_of(rows)) by {
        assert forall|q: int| image.contains(q) implies rows.contains(q) by {
            let i = choose|i: int| rows.contains(i) && q == f(i);
            assert(sa[i] < text.len());
        }
    }
    lemma_subset_equality(image, rows);
    assert(image.contains(p));
    let i = choose|i: int| rows.contains(i) && p == f(i);
    assert(0 <= i < sa.len() && sa[i] == p);
}

/// The row of a position of the text.
pub open spec fn row_of(sa: Seq<usize>, p: int) -> int {
    choose|i: int| 0 <= i < sa.len() && #[trigger] sa[i] == p
}

/// The row of a position holds that position and no other row does.
pub proof fn lemma_row_of(text: Seq<u8>, sa: Seq<usize>, p: int)
    requires
        is_suffix_array(text, sa),
        0 <= p < text.len(),
    ensures
        0 <= row_of(sa, p) < sa.len(),
        sa[row_of(sa, p)] == p,
        forall|i: int| 0 <= i < sa.len() && #[trigger] sa[i] == p ==> i == row_of(sa, p),
{
    lemma_every_position_has_a_row(text, sa, p);
    let r = row_of(sa, p);
    assert forall|i: int| 0 <= i < sa.len() && #[trigger] sa[i] == p implies i == r by {
        lemma_row_order(text, sa, i, r);
    }
}

/// The row of the suffix that starts one position before the suffix of row
/// `i`; for the suffix that is the whole text, the row of the last
/// position.
pub open spec fn row_before(text: Seq<u8>, sa: Seq<usize>, i: int) -> int {
    row_of(
        sa,
        if sa[i] > 0 {
            sa[i] - 1
        } else {
            text.len() - 1
        },
    )
}

/// The first symbol of the suffix in row `j`.
pub open spec fn first_symbol(text: Seq<u8>, sa: Seq<usize>, j: int) -> u8 {
    text[sa[j] as int]
}

/// The row before row `i` starts with the symbol that the transform holds
/// in row `i`, and, unless row `i` holds the whole text, goes on with the
/// suffix of row `i`.
pub proof fn lemma_row_before(text: Seq<u8>, sa: Seq<usize>, i: int)
    requires
        is_suffix_array(text, sa),
        0 <= i < sa.len(),
    ensures
        0 <= row_before(text, sa, i) < sa.len(),
        first_symbol(text, sa, row_before(text, sa, i)) == bwt_of(text, sa)[i],
        sa[i] > 0 ==> sa[row_before(text, sa, i)] == sa[i] - 1,
        sa[i] == 0 ==> sa[row_before(text, sa, i)] == text.len() - 1,
        sa[i] > 0 ==> suffix_in_row(text, sa, row_before(text, sa, i)) == seq![
            bwt_of(text, sa)[i],
        ] + suffix_in_row(text, sa, i),
{
    let p = if sa[i] > 0 {
        sa[i] - 1
    } else {
        text.len() - 1
    };
    assert(sa[i] < text.len());
    lemma_row_of(text, sa, p);
    if sa[i] > 0 {
        assert(text.skip(p) =~= seq![text[p]] + text.skip(sa[i] as int));
    }
}

/// The row of the suffix that starts one position behind the suffix of row
/// `j`; for the suffix that is the last symbol alone, the row of the whole
/// text.
pub open spec fn row_after(text: Seq<u8>, sa: Seq<usize>, j: int) -> int {
    row_of(
        sa,
        if sa[j] + 1 < text.len() {
            sa[j] + 1
        } else {
            0
        },
    )
}

/// Different rows have different rows before them.
pub proof fn lemma_row_before_one_to_one(text: Seq<u8>, sa: Seq<usize>, i1: int, i2: int)
    requires
        is_suffix_array(text, sa),
        0 <= i1 < sa.len(),
        0 <= i2 < sa.len(),
        row_before(text, sa, i1) == row_before(text, sa, i2),
    ensures
        i1 == i2,
{
    lemma_row_before(text, sa, i1);
    lemma_row_before(text, sa, i2);
    assert(sa[i1] < text.len() && sa[i2] < text.len());
    lemma_row_order(text, sa, i1, i2);
}

/// Every row is the row before the row after it.
pub proof fn lemma_row_after(text: Seq<u8>, sa: Seq<usize>, j: int)
    requires
        is_suffix_array(text, sa),
        0 <= j < sa.len(),
    ensures
        0 <= row_after(text, sa, j) < sa.len(),
        row_before(text, sa, row_after(text, sa, j)) == j,
        sa[j] + 1 < text.len() ==> sa[row_after(text, sa, j)] == sa[j] + 1,
{
    let n = text.len() as int;
    assert(sa[j] < n);
    let p = if sa[j] + 1 < n {
        sa[j] + 1
    } else {
        0
    };
    lemma_row_of(text, sa, p);
    let i = row_of(sa, p);
    lemma_row_before(text, sa, i);
    lemma_row_order(text, sa, row_before(text, sa, i), j);
}

/// The places at which a string holds a symbol below `a`.
pub open spec fn places_below(s: Seq<u8>, a: int) -> Set<int> {
    Set::new(|i: int| 0 <= i < s.len() && (s[i] as int) < a)
}

/// The places before `k` at which a string holds the symbol `a`.
pub open spec fn places_of(s: Seq<u8>, a: u8, k: int) -> Set<int> {
    Set::new(|i: int| 0 <= i < k && s[i] == a)
}

/// The count of the symbols below `a` is the number of their places.
pub proof fn lemma_count_below_is_len(s: Seq<u8>, a: int)
    ensures
        places_below(s, a).finite(),
        places_below(s, a).len() == count_below(s, a),
    decreases s.len(),
{
    if s.len() == 0 {
        assert(places_below(s, a) =~= Set::<int>::empty());
    } else {
        let front = s.drop_last();
        lemma_count_below_is_len(front, a);
        if (s.last() as int) < a {
            assert(places_below(s, a) =~= places_below(front, a).insert(s.len() - 1));
        } else {
            assert(places_below(s, a) =~= places_below(front, a));
        }
    }
}

/// The rank of a symbol at `k` is the number of its places before `k`.
pub proof fn lemma_rank_is_len(s: Seq<u8>, a: u8, k: int)
    requires
        0 <= k <= s.len(),
    ensures
        places_of(s, a, k).finite(),
        places_of(s, a, k).len() == rank(s, a, k),
    decreases k,
{
    if k == 0 {
        assert(places_of(s, a, k) =~= Set::<int>::empty());
        assert(s.take(0).len() == 0);
    } else {
        lemma_rank_is_len(s, a, k - 1);
        assert(s.take(k).drop_last() =~= s.take(k - 1));
        assert(s.take(k).last() == s[k - 1]);
        if s[k - 1] == a {
            assert(places_of(s, a, k) =~= places_of(s, a, k - 1).insert(k - 1));
        } else {
            assert(places_of(s, a, k) =~= places_of(s, a, k - 1));
        }
    }
}

/// The rows whose suffixes start with a symbol below `a`.
pub open spec fn rows_below(text: Seq<u8>, sa: Seq<usize>, a: int) -> Set<int> {
    Set::new(|j: int| 0 <= j < sa.len() && (first_symbol(text, sa, j) as int) < a)
}

/// As many rows start with a symbol below `a` as the transform holds
/// symbols below `a`: the transform holds, row by row, the first symbols of
/// the rows before.
pub proof fn lemma_rows_below_count(text: Seq<u8>, sa: Seq<usize>, a: int)
    requires
        is_suffix_array(text, sa),
    ensures
        rows_below(text, sa, a).finite(),
        rows_below(text, sa, a).len() == count_below(bwt_of(text, sa), a),
{
    let bwt = bwt_of(text, sa);
    let from = places_below(bwt, a);
    let to = rows_below(text, sa, a);
    let f = |i: int| row_before(text, sa, i);
    lemma_count_below_is_len(bwt, a);
    assert(injective_on(f, from)) by {
        assert forall|x1: int, x2: int|
            from.contains(x1) && from.contains(x2) && #[trigger] f(x1) == #[trigger] f(
                x2,
            ) implies x1 == x2 by {
            lemma_row_before_one_to_one(text, sa, x1, x2);
        }
    }
    assert(from.map(f) =~= to) by {
        assert forall|j: int| from.map(f).contains(j) == to.contains(j) by {
            if from.map(f).contains(j) {
                let i = choose|i: int| from.contains(i) && j == f(i);
                lemma_row_before(text, sa, i);
            }
            if to.contains(j) {
                let i = row_after(text, sa, j);
                lemma_row_after(text, sa, j);
                lemma_row_before(text, sa, i);
                assert(from.contains(i));
                assert(f(i) == j);
            }
        }
    }
    lemma_map_size(from, to, f);
}

/// Only the last position of the text holds the last symbol of the text.
pub proof fn lemma_end_mark_is_last(text: Seq<u8>, sa: Seq<usize>, j: int)
    requires
        is_suffix_array(text, sa),
        ends_with_least(text),
        0 <= j < sa.len(),
        first_symbol(text, sa, j) != text[text.len() - 1],
    ensures
        sa[j] + 1 < text.len(),
{
    assert(sa[j] < text.len());
}

/// The last-to-first mapping. Where the transform holds `a` in row `i`, the
/// suffix that starts with that `a` stands in the row
/// `less(a) + rank(a, i)`: before it come the suffixes that start with a
/// smaller symbol, and those that start with `a` and go on with a suffix
/// from a row before `i`.
pub proof fn lemma_last_to_first(text: Seq<u8>, sa: Seq<usize>, i: int, a: u8)
    requires
        is_suffix_array(text, sa),
        ends_with_least(text),
        0 <= i < sa.len(),
        bwt_of(text, sa)[i] == a,
        a != text[text.len() - 1],
    ensures
        row_before(text, sa, i) == count_below(bwt_of(text, sa), a as int) + rank(
            bwt_of(text, sa),
            a,
            i,
        ),
{
    let n = text.len() as int;
    let bwt = bwt_of(text, sa);
    let j = row_before(text, sa, i);
    lemma_row_before(text, sa, i);
    assert(sa[i] > 0);
    let below = rows_below(text, sa, a as int);
    let beside = Set::new(|x: int| 0 <= x < j && first_symbol(text, sa, x) == a);
    let earlier = places_of(bwt, a, i);
    let f = |x: int| row_before(text, sa, x);
    lemma_rows_below_count(text, sa, a as int);
    lemma_rank_is_len(bwt, a, i);
    // the rows before `j` are those below `a` and those beside `j`
    assert(below + beside =~= set_int_range(0, j)) by {
        assert forall|x: int| (below + beside).contains(x) == set_int_range(0, j).contains(x) by {
            if 0 <= x < sa.len() {
                assert(sa[x] < n && sa[j] < n);
                lemma_row_order(text, sa, x, j);
                let sx = suffix_in_row(text, sa, x);
                let sj = suffix_in_row(text, sa, j);
                assert(sx.len() > 0 && sj.len() > 0);
                assert(sx[0] == first_symbol(text, sa, x));
                assert(sj[0] == a);
            }
        }
    }
    assert(below.disjoint(beside));
    // the rows beside `j` are the rows before the earlier places of `a`
    assert(injective_on(f, earlier)) by {
        assert forall|x1: int, x2: int|
            earlier.contains(x1) && earlier.contains(x2) && #[trigger] f(x1) == #[trigger] f(
                x2,
            ) implies x1 == x2 by {
            lemma_row_before_one_to_one(text, sa, x1, x2);
        }
    }
    assert(earlier.map(f) =~= beside) by {
        assert forall|y: int| earlier.map(f).contains(y) == beside.contains(y) by {
            if earlier.map(f).contains(y) {
                let x = choose|x: int| earlier.contains(x) && y == f(x);
                lemma_row_before(text, sa, x);
                lemma_row_order(text, sa, x, i);
                lemma_lex_prepend(a, suffix_in_row(text, sa, x), suffix_in_row(text, sa, i));
                lemma_row_order(text, sa, y, j);
            }
            if beside.contains(y) {
                lemma_end_mark_is_last(text, sa, y);
                let x = row_after(text, sa, y);
                lemma_row_after(text, sa, y);
                lemma_row_before(text, sa, x);
                lemma_row_order(text, sa, y, j);
                lemma_lex_prepend(a, suffix_in_row(text, sa, x), suffix_in_row(text, sa, i));
                lemma_row_order(text, sa, x, i);
                assert(earlier.contains(x));
                assert(f(x) == y);
            }
        }
    }
    lemma_map_size(earlier, beside, f);
    lemma_set_disjoint_lens(below, beside);
    lemma_int_range(0, j);
}

/// Whether a string starts with another.
pub open spec fn starts_with(s: Seq<u8>, w: Seq<u8>) -> bool {
    w.len() <= s.len() && s.take(w.len() as int) == w
}

/// Whether the pattern `w` stands in the text at position `p`.
pub open spec fn occurs_at(text: Seq<u8>, w: Seq<u8>, p: int) -> bool {
    0 <= p < text.len() && starts_with(text.skip(p), w)
}

/// Whether the rows `lower .. upper` are exactly the rows of the suffixes
/// that start with `w`.
pub open spec fn rows_hold(text: Seq<u8>, sa: Seq<usize>, rows: Interval, w: Seq<u8>) -> bool {
    &&& rows.lower <= rows.upper <= sa.len()
    &&& forall|i: int|
        0 <= i < sa.len() ==> ((rows.lower <= i < rows.upper) == starts_with(
            #[trigger] suffix_in_row(text, sa, i),
            w,
        ))
}

/// From one place to the next the rank of a symbol grows by 1 where the
/// symbol stands, and not at all elsewhere.
pub proof fn lemma_rank_step(bwt: Seq<u8>, a: u8, k: int)
    requires
        0 <= k < bwt.len(),
    ensures
        rank(bwt, a, k + 1) == rank(bwt, a, k) + if bwt[k] == a {
            1int
        } else {
            0int
        },
{
    assert(bwt.take(k + 1).drop_last() =~= bwt.take(k));
    assert(bwt.take(k + 1).last() == bwt[k]);
}

/// Every rank between the ranks at two places is the rank at a place
/// between them at which the symbol stands.
pub proof fn lemma_rank_hits(bwt: Seq<u8>, a: u8, lo: int, hi: int, t: int) -> (i: int)
    requires
        0 <= lo <= hi <= bwt.len(),
        rank(bwt, a, lo) <= t < rank(bwt, a, hi),
    ensures
        lo <= i < hi,
        bwt[i] == a,
        rank(bwt, a, i) == t,
    decreases hi - lo,
{
    lemma_rank_step(bwt, a, hi - 1);
    if rank(bwt, a, hi - 1) <= t {
        hi - 1
    } else {
        lemma_rank_hits(bwt, a, lo, hi - 1, t)
    }
}

/// Backward extension is exact: where the rows hold the suffixes that start
/// with `w`, the extended rows hold the suffixes that start with `a w`, for
/// every symbol `a` other than the one that ends the text.
pub proof fn lemma_extension_holds(
    text: Seq<u8>,
    ix: IndexModel,
    rows: Interval,
    w: Seq<u8>,
    a: u8,
)
    requires
        is_suffix_array(text, ix.sa),
        ends_with_least(text),
        ix.bwt == bwt_of(text, ix.sa),
        rows_hold(text, ix.sa, rows, w),
        a != text[text.len() - 1],
        text.len() <= usize::MAX,
    ensures
        rows_hold(text, ix.sa, ix.extend(rows, a), seq![a] + w),
{
    let sa = ix.sa;
    let bwt = ix.bwt;
    let n = text.len() as int;
    let less = count_below(bwt, a as int);
    let lo = rows.lower as int;
    let hi = rows.upper as int;
    let longer = seq![a] + w;
    lemma_counts_fit(bwt, a, lo);
    lemma_counts_fit(bwt, a, hi);
    lemma_rank_monotone(bwt, a, lo, hi);
    let grown = ix.extend(rows, a);
    assert(grown.lower == less + rank(bwt, a, lo));
    assert(grown.upper == less + rank(bwt, a, hi));
    assert forall|j: int| 0 <= j < sa.len() implies ((grown.lower <= j < grown.upper)
        == starts_with(#[trigger] suffix_in_row(text, sa, j), longer)) by {
        let sj = suffix_in_row(text, sa, j);
        assert(sa[j] < n);
        if grown.lower <= j < grown.upper {
            let i = lemma_rank_hits(bwt, a, lo, hi, j - less);
            lemma_last_to_first(text, sa, i, a);
            lemma_row_before(text, sa, i);
            let si = suffix_in_row(text, sa, i);
            assert(starts_with(si, w));
            assert(sj == seq![a] + si);
            assert(sj.take(longer.len() as int) =~= seq![a] + si.take(w.len() as int));
        }
        if starts_with(sj, longer) {
            assert(sj[0] == sj.take(longer.len() as int)[0]);
            assert(longer[0] == a);
            assert(first_symbol(text, sa, j) == a);
            lemma_end_mark_is_last(text, sa, j);
            let i = row_after(text, sa, j);
            lemma_row_after(text, sa, j);
            lemma_row_before(text, sa, i);
            let si = suffix_in_row(text, sa, i);
            assert(sj == seq![a] + si);
            assert(si.take(w.len() as int) =~= sj.take(longer.len() as int).drop_first());
            assert(longer.drop_first() =~= w);
            assert(starts_with(si, w));
            assert(lo <= i < hi);
            lemma_last_to_first(text, sa, i, a);
            lemma_rank_monotone(bwt, a, lo, i);
            lemma_rank_step(bwt, a, i);
            lemma_rank_monotone(bwt, a, i + 1, hi);
        }
    }
}

/// Where rows hold the suffixes that start with `w`, their positions are the
/// places at which `w` stands in the text.
pub proof fn lemma_rows_hold_positions(
    text: Seq<u8>,
    ix: IndexModel,
    rows: Interval,
    w: Seq<u8>,
    p: int,
)
    requires
        is_suffix_array(text, ix.sa),
        rows_hold(text, ix.sa, rows, w),
        0 <= p < text.len(),
    ensures
        ix.positions(rows).contains(p as usize) == occurs_at(text, w, p),
{
    let sa = ix.sa;
    let found = ix.positions(rows);
    lemma_row_of(text, sa, p);
    let i = row_of(sa, p);
    assert(suffix_in_row(text, sa, i) == text.skip(p));
    if occurs_at(text, w, p) {
        assert(rows.lower <= i < rows.upper);
        assert(found[i - rows.lower] == sa[i]);
    }
    if found.contains(p as usize) {
        let k = choose|k: int| 0 <= k < found.len() && found[k] == p as usize;
        assert(sa[rows.lower + k] == p);
        assert(suffix_in_row(text, sa, rows.lower + k) == text.skip(p));
    }
}

/// The rows reached by backward extension with the symbols of `w`, last
/// symbol first, from the range of all rows.
pub open spec fn rows_for(ix: IndexModel, w: Seq<u8>) -> Interval
    decreases w.len(),
{
    if w.len() == 0 {
        Interval { lower: 0, upper: ix.bwt.len() as usize }
    } else {
        ix.extend(rows_for(ix, w.drop_first()), w[0])
    }
}

/// Backward search is exact: extending from the range of all rows with the
/// symbols of a pattern, last symbol first, ends in the rows of the
/// suffixes that start with the pattern, and the positions in those rows are
/// the places at which the pattern stands in the text. The pattern must not
/// hold the symbol that ends the text.
pub proof fn lemma_backward_search_finds_occurrences(text: Seq<u8>, ix: IndexModel, w: Seq<u8>)
    requires
        is_suffix_array(text, ix.sa),
        ends_with_least(text),
        ix.bwt == bwt_of(text, ix.sa),
        text.len() <= usize::MAX,
        forall|k: int| 0 <= k < w.len() ==> #[trigger] w[k] != text[text.len() - 1],
    ensures
        rows_hold(text, ix.sa, rows_for(ix, w), w),
        forall|p: int|
            0 <= p < text.len() ==> (ix.positions(rows_for(ix, w)).contains(p as usize)
                == #[trigger] occurs_at(text, w, p)),
    decreases w.len(),
{
    let sa = ix.sa;
    let rows = rows_for(ix, w);
    if w.len() == 0 {
        assert forall|i: int| 0 <= i < sa.len() implies starts_with(
            #[trigger] suffix_in_row(text, sa, i),
            w,
        ) by {
            assert(suffix_in_row(text, sa, i).take(0) =~= w);
        }
    } else {
        let rest = w.drop_first();
        assert forall|k: int| 0 <= k < rest.len() implies #[trigger] rest[k] != text[text.len()
            - 1] by {
            assert(rest[k] == w[k + 1]);
        }
        lemma_backward_search_finds_occurrences(text, ix, rest);
        lemma_extension_holds(text, ix, rows_for(ix, rest), rest, w[0]);
        assert(seq![w[0]] + rest =~= w);
    }
    assert forall|p: int| 0 <= p < text.len() implies (ix.positions(rows).contains(p as usize)
        == #[trigger] occurs_at(text, w, p)) by {
        lemma_rows_hold_positions(text, ix, rows, w, p);
    }
}

} // verus!
