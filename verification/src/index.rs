//! The full-text index over the corpus text.
//!
//! The index answers one question: given the rows of the sorted suffixes that
//! start with some string `w`, which rows start with `a w`? That backward
//! extension needs the Burrows-Wheeler transform of the text, the number of
//! text symbols below each symbol, and, for each symbol, the number of its
//! occurrences in any prefix of the transform. The suffix array then turns
//! rows into text positions.
//!
//! The suffix array, the transform and the two tables are built by the `bio`
//! crate. What this module assumes of it is stated at the six functions
//! marked as trusted below; everything else is proved from that.

use vstd::prelude::*;
use bio::alphabets::Alphabet;
use bio::data_structures::bwt::{bwt, less, Occ};
use bio::data_structures::fmindex::Interval as RowRange;
use bio::data_structures::suffix_array::suffix_array;
use crate::structs::run_config::BOUNDARY;

verus! {

/// `bio`'s table of sampled occurrence counts. Its contents are opaque here.
#[verifier::external_type_specification]
#[verifier::external_body]
pub struct ExOcc(Occ);

/// The transform whose occurrences an occurrence table counts.
pub uninterp spec fn occ_text(occ: Occ) -> Seq<u8>;

/// The symbols for which an occurrence table holds counts.
pub uninterp spec fn occ_symbols(occ: Occ) -> Set<u8>;

/// Lexicographic order on byte strings; a proper prefix comes first.
pub open spec fn lex_less(a: Seq<u8>, b: Seq<u8>) -> bool
    decreases a.len(),
{
    if a.len() == 0 {
        b.len() > 0
    } else if b.len() == 0 {
        false
    } else if a[0] != b[0] {
        a[0] < b[0]
    } else {
        lex_less(a.drop_first(), b.drop_first())
    }
}

/// `sa` lists the start positions of all suffixes of `text` in the
/// lexicographic order of the suffixes.
pub open spec fn is_suffix_array(text: Seq<u8>, sa: Seq<usize>) -> bool {
    &&& sa.len() == text.len()
    &&& forall|i: int| 0 <= i < sa.len() ==> #[trigger] sa[i] < text.len()
    &&& forall|i: int, j: int|
        0 <= i < j < sa.len() ==> lex_less(
            text.skip(#[trigger] sa[i] as int),
            text.skip(#[trigger] sa[j] as int),
        )
}

/// The last byte of the text is smaller than every other byte of it.
pub open spec fn ends_with_least(text: Seq<u8>) -> bool {
    &&& text.len() >= 1
    &&& forall|i: int| 0 <= i < text.len() - 1 ==> #[trigger] text[i] > text[text.len() - 1]
}

/// The Burrows-Wheeler transform: for each row of the suffix array the
/// symbol in front of that suffix, the last symbol for the suffix that is
/// the whole text.
pub open spec fn bwt_of(text: Seq<u8>, sa: Seq<usize>) -> Seq<u8> {
    Seq::new(
        sa.len(),
        |r: int|
            if sa[r] > 0 {
                text[sa[r] - 1]
            } else {
                text[text.len() - 1]
            },
    )
}

/// The largest of the given symbols, 0 for none.
pub open spec fn max_symbol(symbols: Seq<u8>) -> int
    decreases symbols.len(),
{
    if symbols.len() == 0 {
        0
    } else if symbols.last() > max_symbol(symbols.drop_last()) {
        symbols.last() as int
    } else {
        max_symbol(symbols.drop_last())
    }
}

/// The number of entries of `s` that are smaller than `a`.
pub open spec fn count_below(s: Seq<u8>, a: int) -> int
    decreases s.len(),
{
    if s.len() == 0 {
        0
    } else {
        count_below(s.drop_last(), a) + if (s.last() as int) < a {
            1int
        } else {
            0int
        }
    }
}

/// The number of entries of `s` that equal `a`.
pub open spec fn count_eq(s: Seq<u8>, a: u8) -> int
    decreases s.len(),
{
    if s.len() == 0 {
        0
    } else {
        count_eq(s.drop_last(), a) + if s.last() == a {
            1int
        } else {
            0int
        }
    }
}

/// The number of occurrences of `a` among the first `i` symbols of the
/// transform.
pub open spec fn rank(bwt: Seq<u8>, a: u8, i: int) -> int {
    count_eq(bwt.take(i), a)
}

/// A half-open range `lower .. upper` of rows of the suffix array.
#[derive(Debug, Clone, Copy, PartialEq, Eq, Structural)]
pub struct Interval {
    pub lower: usize,
    pub upper: usize,
}

impl Interval {
    pub open spec fn is_empty(self) -> bool {
        self.lower >= self.upper
    }
}

/// What the search sees of an index: the transform and the suffix array.
pub struct IndexModel {
    pub bwt: Seq<u8>,
    pub sa: Seq<usize>,
    pub symbols: Seq<u8>,
}

impl IndexModel {
    /// The number of text symbols below `a`: the row at which the suffixes
    /// starting with `a` begin.
    pub open spec fn less(self, a: u8) -> int {
        count_below(self.bwt, a as int)
    }

    /// Backward extension: the rows from `less(a) + rank(a, lower)` up to
    /// `less(a) + rank(a, upper)`. In the index of a text, where `rows` holds
    /// the suffixes that start with some string `w`, these are the rows of
    /// the suffixes that start with `a w`
    /// (see [`lemma_extension_holds`](crate::occurrences::lemma_extension_holds)).
    pub open spec fn extend(self, rows: Interval, a: u8) -> Interval {
        Interval {
            lower: (self.less(a) + rank(self.bwt, a, rows.lower as int)) as usize,
            upper: (self.less(a) + rank(self.bwt, a, rows.upper as int)) as usize,
        }
    }

    /// The text positions of the suffixes in the given rows.
    pub open spec fn positions(self, rows: Interval) -> Seq<usize> {
        if rows.is_empty() {
            Seq::empty()
        } else {
            self.sa.subrange(rows.lower as int, rows.upper as int)
        }
    }

    /// The symbol can be looked up: it is the boundary byte or one of the
    /// symbols that the index was built for.
    pub open spec fn knows(self, a: u8) -> bool {
        a == BOUNDARY || self.symbols.contains(a)
    }
}

/// The index: the transform, its two tables and the suffix array.
pub struct TextIndex {
    bwt: Vec<u8>,
    less: Vec<usize>,
    occ: Occ,
    sa: Vec<usize>,
    symbols: Vec<u8>,
}

impl View for TextIndex {
    type V = IndexModel;

    closed spec fn view(&self) -> IndexModel {
        IndexModel { bwt: self.bwt@, sa: self.sa@, symbols: self.symbols@ }
    }
}

impl TextIndex {
    /// The tables belong to the transform and cover every symbol that can be
    /// looked up; the suffix array has a row for every text position.
    pub closed spec fn wf(self) -> bool {
        &&& self.bwt@.len() >= 1
        &&& self.sa@.len() == self.bwt@.len()
        &&& forall|i: int| 0 <= i < self.sa@.len() ==> #[trigger] self.sa@[i] < self.bwt@.len()
        &&& self.less@.len() == max_symbol(self.symbols@) + 2
        &&& forall|c: int|
            0 <= c < self.less@.len() ==> #[trigger] self.less@[c] as int == count_below(
                self.bwt@,
                c,
            )
        &&& occ_text(self.occ) == self.bwt@
        &&& forall|a: u8| #[trigger] self@.knows(a) ==> occ_symbols(self.occ).contains(a)
        &&& BOUNDARY <= max_symbol(self.symbols@)
    }

    /// Whether a text can be indexed for the given symbols: it ends with a
    /// byte that is smaller than all its other bytes, none of its bytes
    /// exceeds the largest symbol, and the boundary byte does not either.
    pub open spec fn indexable(text: Seq<u8>, symbols: Seq<u8>) -> bool {
        &&& ends_with_least(text)
        &&& symbols.len() >= 1
        &&& BOUNDARY <= max_symbol(symbols)
        &&& forall|i: int| 0 <= i < text.len() ==> #[trigger] text[i] <= max_symbol(symbols)
    }

    /// Builds the index of `text` for lookups of `symbols` and of the
    /// boundary byte; nothing where the text cannot be indexed.
    pub fn build(text: &Vec<u8>, symbols: &Vec<u8>) -> (r: Option<TextIndex>)
        ensures
            r.is_some() <==> Self::indexable(text@, symbols@),
            r matches Some(idx) ==> {
                &&& idx.wf()
                &&& idx@.symbols == symbols@
                &&& is_suffix_array(text@, idx@.sa)
                &&& idx@.bwt == bwt_of(text@, idx@.sa)
            },
    {
        if text.len() == 0 || symbols.len() == 0 {
            return None;
        }
        let top: u8 = largest_symbol(symbols);
        if top < BOUNDARY {
            return None;
        }
        let last: u8 = text[text.len() - 1];
        let mut i: usize = 0;
        while i < text.len()
            invariant
                0 <= i <= text.len(),
                text.len() >= 1,
                last == text@[text.len() - 1],
                top as int == max_symbol(symbols@),
                forall|j: int| 0 <= j < i ==> #[trigger] text@[j] <= top,
                forall|j: int| 0 <= j < i && j < text.len() - 1 ==> #[trigger] text@[j] > last,
            decreases text.len() - i,
        {
            if text[i] > top || (i < text.len() - 1 && text[i] <= last) {
                return None;
            }
            i = i + 1;
        }
        let sa: Vec<usize> = build_suffix_array(text);
        let transform: Vec<u8> = build_bwt(text, &sa);
        let less_table: Vec<usize> = build_less(&transform, symbols);
        let occ_table: Occ = build_occ(&transform, 3, symbols);
        let mut kept: Vec<u8> = Vec::new();
        let mut k: usize = 0;
        while k < symbols.len()
            invariant
                0 <= k <= symbols.len(),
                kept@ == symbols@.take(k as int),
            decreases symbols.len() - k,
        {
            kept.push(symbols[k]);
            k = k + 1;
            assert(kept@ =~= symbols@.take(k as int));
        }
        assert(kept@ =~= symbols@);
        let idx = TextIndex { bwt: transform, less: less_table, occ: occ_table, sa, symbols: kept };
        assert(idx.wf());
        Some(idx)
    }

    /// The transform and the suffix array have one row for every text
    /// position, and the suffix array holds text positions.
    pub proof fn lemma_rows(self)
        requires
            self.wf(),
        ensures
            1 <= self@.bwt.len() == self@.sa.len() <= usize::MAX,
            forall|i: int| 0 <= i < self@.sa.len() ==> #[trigger] self@.sa[i] < self@.bwt.len(),
    {
        vstd::std_specs::vec::axiom_spec_len(&self.bwt);
    }

    /// Whether every one of the given symbols can be looked up.
    pub fn knows_all(&self, alphabet: &Vec<u8>) -> (r: bool)
        ensures
            r == forall|k: int| 0 <= k < alphabet@.len() ==> self@.knows(#[trigger] alphabet@[k]),
    {
        let mut k: usize = 0;
        while k < alphabet.len()
            invariant
                0 <= k <= alphabet@.len(),
                forall|t: int| 0 <= t < k ==> self@.knows(#[trigger] alphabet@[t]),
            decreases alphabet@.len() - k,
        {
            let a: u8 = alphabet[k];
            let mut found: bool = a == BOUNDARY;
            let mut j: usize = 0;
            while j < self.symbols.len()
                invariant
                    0 <= j <= self.symbols@.len(),
                    found == (a == BOUNDARY || exists|t: int| 0 <= t < j && self.symbols@[t] == a),
                decreases self.symbols@.len() - j,
            {
                if self.symbols[j] == a {
                    found = true;
                }
                j = j + 1;
            }
            if !found {
                assert(!self@.knows(alphabet@[k as int]));
                return false;
            }
            assert(self@.knows(alphabet@[k as int])) by {
                if a != BOUNDARY {
                    let t = choose|t: int| 0 <= t < self.symbols@.len() && self.symbols@[t] == a;
                    assert(self.symbols@.contains(a));
                }
            }
            k = k + 1;
        }
        true
    }

    /// The number of rows, which is the length of the text.
    pub fn text_len(&self) -> (r: usize)
        requires
            self.wf(),
        ensures
            r == self@.bwt.len(),
            r == self@.sa.len(),
            r >= 1,
    {
        self.bwt.len()
    }

    /// All rows: the range that every suffix lies in.
    pub fn full_interval(&self) -> (r: Interval)
        requires
            self.wf(),
        ensures
            r == (Interval { lower: 0, upper: self@.bwt.len() as usize }),
    {
        Interval { lower: 0, upper: self.bwt.len() }
    }

    /// The number of text symbols below `a`.
    pub fn less(&self, a: u8) -> (r: usize)
        requires
            self.wf(),
            self@.knows(a),
        ensures
            r as int == self@.less(a),
            r <= self@.bwt.len(),
    {
        proof {
            lemma_max_symbol_bounds(self.symbols@);
            lemma_counts_fit(self.bwt@, a, 0);
        }
        self.less[a as usize]
    }

    /// The number of occurrences of `a` among the first `i` symbols of the
    /// transform.
    pub fn rank(&self, a: u8, i: usize) -> (r: usize)
        requires
            self.wf(),
            self@.knows(a),
            i <= self@.bwt.len(),
        ensures
            r as int == rank(self@.bwt, a, i as int),
    {
        if i > 0 {
            proof {
                lemma_counts_fit(self.bwt@, a, i as int);
            }
            occ_get(&self.occ, &self.bwt, i - 1, a)
        } else {
            assert(self.bwt@.take(0).len() == 0);
            0
        }
    }

    /// Backward extension of a non-empty range of rows by the symbol `a`.
    pub fn extend(&self, rows: &Interval, a: u8) -> (r: Interval)
        requires
            self.wf(),
            self@.knows(a),
            rows.lower <= rows.upper <= self@.bwt.len(),
        ensures
            r == self@.extend(*rows, a),
            r.lower <= r.upper <= self@.bwt.len(),
    {
        let less: usize = self.less(a);
        proof {
            lemma_counts_fit(self.bwt@, a, rows.lower as int);
            lemma_counts_fit(self.bwt@, a, rows.upper as int);
            lemma_rank_monotone(self.bwt@, a, rows.lower as int, rows.upper as int);
        }
        let below: usize = self.rank(a, rows.lower);
        let within: usize = self.rank(a, rows.upper);
        assert(less + within <= self.bwt.len());
        Interval { lower: less + below, upper: less + within }
    }

    /// The text positions of the suffixes in the given rows.
    pub fn positions(&self, rows: &Interval) -> (r: Vec<usize>)
        requires
            self.wf(),
            rows.upper <= self@.sa.len(),
        ensures
            r@ == self@.positions(*rows),
            forall|i: int| 0 <= i < r@.len() ==> #[trigger] r@[i] < self@.bwt.len(),
    {
        if rows.lower >= rows.upper {
            Vec::new()
        } else {
            interval_positions(&self.sa, rows.lower, rows.upper)
        }
    }
}

/// The largest of the given symbols.
pub fn largest_symbol(symbols: &Vec<u8>) -> (top: u8)
    ensures
        top as int == max_symbol(symbols@),
{
    let mut top: u8 = 0;
    let mut i: usize = 0;
    while i < symbols.len()
        invariant
            0 <= i <= symbols.len(),
            top as int == max_symbol(symbols@.take(i as int)),
        decreases symbols.len() - i,
    {
        assert(symbols@.take(i + 1).drop_last() =~= symbols@.take(i as int));
        if symbols[i] > top {
            top = symbols[i];
        }
        i = i + 1;
    }
    assert(symbols@.take(i as int) =~= symbols@);
    top
}

/// No symbol exceeds the largest one.
pub proof fn lemma_max_symbol_bounds(symbols: Seq<u8>)
    ensures
        0 <= max_symbol(symbols) <= u8::MAX,
        forall|i: int| 0 <= i < symbols.len() ==> #[trigger] symbols[i] <= max_symbol(symbols),
    decreases symbols.len(),
{
    if symbols.len() > 0 {
        lemma_max_symbol_bounds(symbols.drop_last());
        assert forall|i: int| 0 <= i < symbols.len() implies #[trigger] symbols[i] <= max_symbol(
            symbols,
        ) by {
            if i < symbols.len() - 1 {
                assert(symbols.drop_last()[i] == symbols[i]);
            }
        }
    }
}

/// The symbols below `a` and the occurrences of `a` in any prefix are
/// different entries of the transform, so together they number at most its
/// length.
pub proof fn lemma_counts_fit(bwt: Seq<u8>, a: u8, i: int)
    requires
        0 <= i <= bwt.len(),
    ensures
        0 <= count_below(bwt, a as int),
        0 <= rank(bwt, a, i) <= i,
        count_below(bwt, a as int) + rank(bwt, a, i) <= bwt.len(),
{
    lemma_rank_monotone(bwt, a, i, bwt.len() as int);
    assert(bwt.take(bwt.len() as int) =~= bwt);
    lemma_counts_partition(bwt, a);
    lemma_rank_monotone(bwt, a, 0, i);
    assert(bwt.take(0).len() == 0);
}

proof fn lemma_counts_partition(s: Seq<u8>, a: u8)
    ensures
        0 <= count_below(s, a as int),
        0 <= count_eq(s, a),
        count_below(s, a as int) + count_eq(s, a) <= s.len(),
    decreases s.len(),
{
    if s.len() > 0 {
        lemma_counts_partition(s.drop_last(), a);
    }
}

/// A longer prefix of the transform holds at least as many occurrences, and
/// at most as many more as it is longer.
pub proof fn lemma_rank_monotone(bwt: Seq<u8>, a: u8, i: int, j: int)
    requires
        0 <= i <= j <= bwt.len(),
    ensures
        rank(bwt, a, i) <= rank(bwt, a, j) <= rank(bwt, a, i) + (j - i),
    decreases j - i,
{
    if i < j {
        lemma_rank_monotone(bwt, a, i, j - 1);
        assert(bwt.take(j).drop_last() =~= bwt.take(j - 1));
    }
}

/// Trusted: `bio::data_structures::suffix_array::suffix_array`.
///
/// Assumed of it: on a text whose last byte is smaller than all its other
/// bytes it returns the suffix array of the text, that is, every position of
/// the text once, ordered by the suffixes that start there.
#[verifier::external_body]
fn build_suffix_array(text: &Vec<u8>) -> (sa: Vec<usize>)
    requires
        ends_with_least(text@),
    ensures
        is_suffix_array(text@, sa@),
{
    suffix_array(text)
}

/// Trusted: `bio::data_structures::bwt::bwt`.
///
/// Assumed of it: row `r` of the result is the text symbol in front of
/// position `sa[r]`, and the last symbol of the text where `sa[r]` is 0.
#[verifier::external_body]
fn build_bwt(text: &Vec<u8>, sa: &Vec<usize>) -> (r: Vec<u8>)
    requires
        text@.len() == sa@.len(),
        forall|i: int| 0 <= i < sa@.len() ==> #[trigger] sa@[i] < text@.len(),
    ensures
        r@ == bwt_of(text@, sa@),
{
    bwt(text, sa)
}

/// Trusted: `bio::data_structures::bwt::less`, on the alphabet that
/// `bio::alphabets::Alphabet::new` makes of `symbols`.
///
/// Assumed of it: the table has an entry for every byte up to one above the
/// largest symbol, and the entry of a byte is the number of symbols in the
/// transform that are smaller than it.
#[verifier::external_body]
fn build_less(transform: &Vec<u8>, symbols: &Vec<u8>) -> (r: Vec<usize>)
    requires
        symbols@.len() >= 1,
        forall|i: int| 0 <= i < transform@.len() ==> #[trigger] transform@[i] <= max_symbol(symbols@),
    ensures
        r@.len() == max_symbol(symbols@) + 2,
        forall|c: int| 0 <= c < r@.len() ==> #[trigger] r@[c] as int == count_below(transform@, c),
{
    less(transform, &Alphabet::new(symbols))
}

/// Trusted: `bio::data_structures::bwt::Occ::new`, on the alphabet that
/// `bio::alphabets::Alphabet::new` makes of `symbols`.
///
/// Assumed of it: the table counts occurrences in the given transform, and
/// it holds counts for every one of the symbols and for the boundary byte
/// (which `bio` adds where it does not exceed the largest symbol).
#[verifier::external_body]
fn build_occ(transform: &Vec<u8>, sampling: u32, symbols: &Vec<u8>) -> (r: Occ)
    requires
        sampling >= 1,
        symbols@.len() >= 1,
        forall|i: int| 0 <= i < transform@.len() ==> #[trigger] transform@[i] <= max_symbol(symbols@),
    ensures
        occ_text(r) == transform@,
        forall|a: u8| #[trigger] symbols@.contains(a) ==> occ_symbols(r).contains(a),
        BOUNDARY <= max_symbol(symbols@) ==> occ_symbols(r).contains(BOUNDARY),
{
    Occ::new(transform, sampling, &Alphabet::new(symbols))
}

/// Trusted: `bio::data_structures::bwt::Occ::get`.
///
/// Assumed of it: given the transform that the table was built from, it
/// returns the number of occurrences of `a` in rows `0 ..= r`.
#[verifier::external_body]
fn occ_get(occ: &Occ, transform: &Vec<u8>, r: usize, a: u8) -> (count: usize)
    requires
        transform@ == occ_text(*occ),
        r < transform@.len(),
        occ_symbols(*occ).contains(a),
    ensures
        count as int == count_eq(transform@.take(r + 1), a),
{
    occ.get(transform, r, a)
}

/// Trusted: `bio::data_structures::fmindex::Interval::occ`.
///
/// Assumed of it: it returns the entries of the suffix array in the rows
/// `lower .. upper`, in row order.
#[verifier::external_body]
fn interval_positions(sa: &Vec<usize>, lower: usize, upper: usize) -> (r: Vec<usize>)
    requires
        lower <= upper <= sa@.len(),
    ensures
        r@ == sa@.subrange(lower as int, upper as int),
{
    RowRange { lower, upper }.occ(sa)
}

} // verus!
