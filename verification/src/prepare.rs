//! Corpus assembly: from named sequences to the corpus text.
//!
//! Every sequence is stored backwards behind a boundary byte. Where reverse
//! complements are searched, the reverse complement of each sequence
//! follows it at once, so the two get adjacent ids: an even one for the
//! sequence, the next odd one for its companion.

use vstd::prelude::*;
use crate::structs::run_config::{
    complement_of,
    complement_seq,
    is_sentinel,
    is_sequence_symbol,
    Config,
    Maps,
    BOUNDARY,
    END_MARK,
    READ_ERR,
    SYMBOL_A,
    SYMBOL_C,
    SYMBOL_G,
    SYMBOL_T,
};

verus! {

/// A named sequence as read from the input.
#[derive(Debug)]
pub struct Record {
    pub name: String,
    pub seq: Vec<u8>,
}

/// The sequence without its unreadable symbols.
pub open spec fn without_unreadable(s: Seq<u8>) -> Seq<u8>
    decreases s.len(),
{
    if s.len() == 0 {
        s
    } else if s.last() != READ_ERR {
        without_unreadable(s.drop_last()).push(s.last())
    } else {
        without_unreadable(s.drop_last())
    }
}

/// The sequence as it enters the corpus: whole where the alphabet holds the
/// unreadable symbol, else without its unreadable symbols.
pub open spec fn cleaned(s: Seq<u8>, n_alphabet: bool) -> Seq<u8> {
    if n_alphabet {
        s
    } else {
        without_unreadable(s)
    }
}

/// The stored sequences of a list of records, in id order: each sequence
/// backwards and, with reversals, its complement read forwards behind it
/// (which is its reverse complement, stored backwards).
pub open spec fn entries_of(records: Seq<Record>, reversals: bool, n_alphabet: bool) -> Seq<
    Seq<u8>,
>
    decreases records.len(),
{
    if records.len() == 0 {
        Seq::empty()
    } else {
        let rest = entries_of(records.drop_last(), reversals, n_alphabet);
        let seq = cleaned(records.last().seq@, n_alphabet);
        if reversals {
            rest.push(seq.reverse()).push(complement_seq(seq))
        } else {
            rest.push(seq.reverse())
        }
    }
}

/// The names of the stored sequences, in id order.
pub open spec fn names_of(records: Seq<Record>, reversals: bool) -> Seq<Seq<char>>
    decreases records.len(),
{
    if records.len() == 0 {
        Seq::empty()
    } else {
        let rest = names_of(records.drop_last(), reversals);
        if reversals {
            rest.push(records.last().name@).push(records.last().name@)
        } else {
            rest.push(records.last().name@)
        }
    }
}

/// The text of a list of stored sequences, without the end byte: each
/// sequence behind a boundary byte.
pub open spec fn corpus_of(entries: Seq<Seq<u8>>) -> Seq<u8>
    decreases entries.len(),
{
    if entries.len() == 0 {
        Seq::empty()
    } else {
        corpus_of(entries.drop_last()).push(BOUNDARY) + entries.last()
    }
}

/// The number of unreadable symbols in a sequence.
pub open spec fn unreadable_count(s: Seq<u8>) -> int
    decreases s.len(),
{
    if s.len() == 0 {
        0
    } else {
        unreadable_count(s.drop_last()) + if s.last() == READ_ERR {
            1int
        } else {
            0int
        }
    }
}

/// The number of unreadable symbols in all sequences of a list of records.
pub open spec fn unreadable_total(records: Seq<Record>) -> int
    decreases records.len(),
{
    if records.len() == 0 {
        0
    } else {
        unreadable_total(records.drop_last()) + unreadable_count(records.last().seq@)
    }
}

/// A count as far as the machine can hold it.
pub open spec fn capped(count: int) -> int {
    if count > usize::MAX {
        usize::MAX as int
    } else {
        count
    }
}

/// Whether a sequence can enter the corpus: it holds no sentinel, its length
/// fits an overhang, and where its reverse complement is needed all its
/// symbols have a complement.
pub open spec fn storable(s: Seq<u8>, reversals: bool) -> bool {
    &&& s.len() <= i32::MAX
    &&& forall|j: int| 0 <= j < s.len() ==> !is_sentinel(#[trigger] s[j])
    &&& reversals ==> forall|j: int| 0 <= j < s.len() ==> is_sequence_symbol(#[trigger] s[j])
}

/// Whether a sequence can enter the corpus.
pub fn is_storable(seq: &Vec<u8>, reversals: bool) -> (r: bool)
    ensures
        r == storable(seq@, reversals),
{
    if seq.len() > i32::MAX as usize {
        return false;
    }
    let mut j: usize = 0;
    while j < seq.len()
        invariant
            0 <= j <= seq@.len(),
            forall|t: int| 0 <= t < j ==> !is_sentinel(#[trigger] seq@[t]),
            reversals ==> forall|t: int| 0 <= t < j ==> is_sequence_symbol(#[trigger] seq@[t]),
        decreases seq@.len() - j,
    {
        let x: u8 = seq[j];
        if x == BOUNDARY || x == END_MARK {
            return false;
        }
        if reversals && !(x == SYMBOL_A || x == SYMBOL_C || x == SYMBOL_G || x == SYMBOL_T || x
            == READ_ERR) {
            return false;
        }
        j = j + 1;
    }
    true
}

/// The complement of a sequence symbol.
pub fn complement_u8(x: u8) -> (r: u8)
    requires
        is_sequence_symbol(x),
    ensures
        r == complement_of(x),
        is_sequence_symbol(r),
{
    if x == SYMBOL_A {
        SYMBOL_T
    } else if x == SYMBOL_C {
        SYMBOL_G
    } else if x == SYMBOL_G {
        SYMBOL_C
    } else if x == SYMBOL_T {
        SYMBOL_A
    } else {
        READ_ERR
    }
}

/// What holds of the text while it is assembled: the stored sequences lie
/// one behind the other, each behind its boundary byte, and nothing else is
/// in the text.
pub open spec fn holds_entries(text: Seq<u8>, indexes: Seq<usize>, entries: Seq<Seq<u8>>) -> bool {
    &&& indexes.len() == entries.len()
    &&& text == corpus_of(entries)
    &&& forall|i: int|
        0 <= i < entries.len() ==> {
            &&& 1 <= #[trigger] indexes[i]
            &&& indexes[i] + entries[i].len() <= text.len()
            &&& text[indexes[i] - 1] == BOUNDARY
            &&& text.subrange(indexes[i] as int, indexes[i] + entries[i].len()) == entries[i]
            &&& entries[i].len() <= i32::MAX
            &&& forall|j: int| 0 <= j < entries[i].len() ==> !is_sentinel(#[trigger] entries[i][j])
        }
    &&& forall|i: int|
        0 <= i < entries.len() - 1 ==> #[trigger] indexes[i + 1] == indexes[i] + entries[i].len() + 1
    &&& forall|i: int, j: int|
        0 <= i < j < entries.len() ==> #[trigger] indexes[i] + entries[i].len() < #[trigger] indexes[j]
    &&& entries.len() > 0 ==> indexes[entries.len() - 1] + entries[entries.len() - 1].len()
        == text.len()
    &&& entries.len() == 0 ==> text.len() == 0
    &&& forall|p: int| 0 <= p < text.len() ==> covered(indexes, entries, p)
}

/// Whether text position `p` is the boundary byte or a symbol of stored
/// sequence `i`.
pub open spec fn covers(indexes: Seq<usize>, entries: Seq<Seq<u8>>, i: int, p: int) -> bool {
    0 <= i < entries.len() && indexes[i] - 1 <= p < indexes[i] + entries[i].len()
}

/// Whether text position `p` belongs to some stored sequence.
pub open spec fn covered(indexes: Seq<usize>, entries: Seq<Seq<u8>>, p: int) -> bool {
    exists|i: int| #[trigger] covers(indexes, entries, i, p)
}

/// Stores one sequence: appends a boundary byte and the sequence to the
/// text and records where the sequence starts.
fn append_entry(
    text: &mut Vec<u8>,
    indexes: &mut Vec<usize>,
    entry: &Vec<u8>,
    ghost_entries: Ghost<Seq<Seq<u8>>>,
)
    requires
        holds_entries(old(text)@, old(indexes)@, ghost_entries@),
        entry@.len() <= i32::MAX,
        forall|j: int| 0 <= j < entry@.len() ==> !is_sentinel(#[trigger] entry@[j]),
    ensures
        holds_entries(final(text)@, final(indexes)@, ghost_entries@.push(entry@)),
        final(indexes)@ == old(indexes)@.push((old(text)@.len() + 1) as usize),
{
    let ghost entries = ghost_entries@;
    let ghost text0 = text@;
    let ghost indexes0 = indexes@;
    text.push(BOUNDARY);
    let index: usize = text.len();
    indexes.push(index);
    let mut k: usize = 0;
    while k < entry.len()
        invariant
            0 <= k <= entry@.len(),
            text@ == text0.push(BOUNDARY) + entry@.take(k as int),
        decreases entry@.len() - k,
    {
        text.push(entry[k]);
        k = k + 1;
        assert(text@ =~= text0.push(BOUNDARY) + entry@.take(k as int));
    }
    proof {
        assert(entry@.take(k as int) =~= entry@);
        let grown = entries.push(entry@);
        let n = entries.len() as int;
        assert(grown.drop_last() =~= entries);
        assert(text@ == corpus_of(grown));
        assert forall|i: int| 0 <= i < grown.len() implies {
            &&& 1 <= #[trigger] indexes@[i]
            &&& indexes@[i] + grown[i].len() <= text@.len()
            &&& text@[indexes@[i] - 1] == BOUNDARY
            &&& text@.subrange(indexes@[i] as int, indexes@[i] + grown[i].len()) == grown[i]
            &&& grown[i].len() <= i32::MAX
            &&& forall|j: int| 0 <= j < grown[i].len() ==> !is_sentinel(#[trigger] grown[i][j])
        } by {
            if i < n {
                assert(indexes@[i] == indexes0[i]);
                assert(grown[i] == entries[i]);
                assert(text@.subrange(indexes@[i] as int, indexes@[i] + grown[i].len())
                    =~= text0.subrange(indexes0[i] as int, indexes0[i] + entries[i].len()));
            } else {
                assert(text@.subrange(indexes@[i] as int, indexes@[i] + grown[i].len())
                    =~= entry@);
            }
        }
        assert forall|i: int| 0 <= i < grown.len() - 1 implies #[trigger] indexes@[i + 1]
            == indexes@[i] + grown[i].len() + 1 by {
            if i + 1 < n {
                assert(indexes0[i + 1] == indexes0[i] + entries[i].len() + 1);
            }
        }
        assert forall|i: int, j: int| 0 <= i < j < grown.len() implies #[trigger] indexes@[i]
            + grown[i].len() < #[trigger] indexes@[j] by {
            if j < n {
                assert(indexes0[i] + entries[i].len() < indexes0[j]);
            } else {
                assert(indexes0[i] + entries[i].len() <= text0.len());
            }
        }
        assert forall|p: int| 0 <= p < text@.len() implies covered(indexes@, grown, p) by {
            if p < text0.len() {
                assert(covered(indexes0, entries, p));
                let w = choose|w: int| #[trigger] covers(indexes0, entries, w, p);
                assert(covers(indexes@, grown, w, p));
            } else {
                assert(covers(indexes@, grown, n, p));
            }
        }
    }
}

/// Assembles the corpus from a list of records and says how many unreadable
/// symbols it left out (as far as the count fits a machine word).
///
/// Each sequence loses its unreadable symbols where the alphabet does not
/// hold them, and is stored backwards. With reversals its reverse complement
/// is stored right behind it under the same name.
pub fn prepare_maps(records: &Vec<Record>, config: &Config) -> (r: (Maps, usize))
    requires
        forall|i: int|
            0 <= i < records@.len() ==> storable(
                (#[trigger] records@[i]).seq@,
                config.reversals,
            ),
    ensures
        r.0.wf(),
        r.0.text@ == corpus_of(entries_of(records@, config.reversals, config.n_alphabet)).push(
            END_MARK,
        ),
        r.0.indexes@.len() == entries_of(records@, config.reversals, config.n_alphabet).len(),
        forall|id: int|
            0 <= id < r.0.indexes@.len() ==> #[trigger] r.0.sequence(id) == entries_of(
                records@,
                config.reversals,
                config.n_alphabet,
            )[id],
        r.0.id2name_vec@.len() == names_of(records@, config.reversals).len(),
        forall|id: int|
            0 <= id < r.0.id2name_vec@.len() ==> (#[trigger] r.0.id2name_vec@[id])@ == names_of(
                records@,
                config.reversals,
            )[id],
        config.reversals ==> r.0.companions_wf(),
        config.reversals ==> r.0.indexes@.len() == 2 * records@.len(),
        !config.reversals ==> r.0.indexes@.len() == records@.len(),
        !config.n_alphabet ==> r.1 as int == capped(unreadable_total(records@)),
        config.n_alphabet ==> r.1 == 0,
{
    let mut text: Vec<u8> = Vec::new();
    let mut id2name_vec: Vec<String> = Vec::new();
    let mut indexes: Vec<usize> = Vec::new();
    let mut n_symbols_removed: usize = 0;
    let reversals: bool = config.reversals;
    let n_alphabet: bool = config.n_alphabet;
    let mut i: usize = 0;
    assert(records@.take(0).len() == 0);
    while i < records.len()
        invariant
            0 <= i <= records@.len(),
            reversals == config.reversals,
            n_alphabet == config.n_alphabet,
            forall|t: int|
                0 <= t < records@.len() ==> storable((#[trigger] records@[t]).seq@, reversals),
            holds_entries(
                text@,
                indexes@,
                entries_of(records@.take(i as int), reversals, n_alphabet),
            ),
            id2name_vec@.len() == names_of(records@.take(i as int), reversals).len(),
            forall|id: int|
                0 <= id < id2name_vec@.len() ==> (#[trigger] id2name_vec@[id])@ == names_of(
                    records@.take(i as int),
                    reversals,
                )[id],
            reversals ==> indexes@.len() == 2 * i,
            !reversals ==> indexes@.len() == i,
            reversals ==> forall|id: int|
                0 <= id < indexes@.len() && id % 2 == 0 ==> #[trigger] entries_of(
                    records@.take(i as int),
                    reversals,
                    n_alphabet,
                )[id + 1] == complement_seq(
                    entries_of(records@.take(i as int), reversals, n_alphabet)[id].reverse(),
                ),
            !n_alphabet ==> n_symbols_removed as int == capped(
                unreadable_total(records@.take(i as int)),
            ),
            n_alphabet ==> n_symbols_removed == 0,
        decreases records@.len() - i,
    {
        let record: &Record = &records[i];
        let ghost sofar = records@.take(i as int);
        let ghost upto = records@.take(i + 1);
        let ghost before = entries_of(sofar, reversals, n_alphabet);
        let ghost names_before = names_of(sofar, reversals);
        proof {
            assert(upto.drop_last() =~= sofar);
            assert(upto.last() == records@[i as int]);
            assert(storable(records@[i as int].seq@, reversals));
        }
        proof {
            lemma_unreadable_total_fits(sofar);
            lemma_unreadable_count_fits(records@[i as int].seq@);
        }
        let (forward, removed) = clean_sequence(&record.seq, n_alphabet, reversals);
        let backward: Vec<u8> = reversed(&forward);
        if removed <= usize::MAX - n_symbols_removed {
            n_symbols_removed = n_symbols_removed + removed;
        } else {
            n_symbols_removed = usize::MAX;
        }
        append_entry(&mut text, &mut indexes, &backward, Ghost(before));
        id2name_vec.push(record.name.clone());
        if reversals {
            let complement: Vec<u8> = complemented(&forward);
            append_entry(&mut text, &mut indexes, &complement, Ghost(before.push(backward@)));
            id2name_vec.push(record.name.clone());
            proof {
                assert(forward@.reverse().reverse() =~= forward@);
            }
        }
        proof {
            let after = entries_of(upto, reversals, n_alphabet);
            let names_after = names_of(upto, reversals);
            assert forall|id: int| 0 <= id < id2name_vec@.len() implies (
            #[trigger] id2name_vec@[id])@ == names_after[id] by {
                if id < names_before.len() {
                    assert(names_after[id] == names_before[id]);
                }
            }
            if reversals {
                assert forall|id: int| 0 <= id < indexes@.len() && id % 2 == 0 implies
                    #[trigger] after[id + 1] == complement_seq(after[id].reverse()) by {
                    if id + 1 < before.len() {
                        assert(after[id] == before[id]);
                        assert(after[id + 1] == before[id + 1]);
                    }
                }
            }
        }
        i = i + 1;
    }
    let ghost entries = entries_of(records@, reversals, n_alphabet);
    assert(records@.take(i as int) =~= records@);
    let ghost body = text@;
    text.push(END_MARK);
    let maps = Maps { text, id2name_vec, indexes };
    proof {
        lemma_names_count(records@, reversals, n_alphabet);
        lemma_assembled_wf(maps, body, entries);
        if reversals {
            assert(maps.companions_wf());
        }
    }
    (maps, n_symbols_removed)
}

/// The sequence as it enters the corpus, with the number of symbols left
/// out.
fn clean_sequence(seq: &Vec<u8>, n_alphabet: bool, reversals: bool) -> (r: (Vec<u8>, usize))
    requires
        storable(seq@, reversals),
    ensures
        r.0@ == cleaned(seq@, n_alphabet),
        storable(r.0@, reversals),
        !n_alphabet ==> r.1 as int == unreadable_count(seq@),
        n_alphabet ==> r.1 == 0,
{
    let mut kept: Vec<u8> = Vec::new();
    let mut removed: usize = 0;
    let mut j: usize = 0;
    assert(seq@.take(0).len() == 0);
    while j < seq.len()
        invariant
            0 <= j <= seq@.len(),
            storable(seq@, reversals),
            kept@ == cleaned(seq@.take(j as int), n_alphabet),
            kept@.len() <= j,
            removed <= j,
            !n_alphabet ==> removed as int == unreadable_count(seq@.take(j as int)),
            n_alphabet ==> removed == 0,
            forall|t: int| 0 <= t < kept@.len() ==> !is_sentinel(#[trigger] kept@[t]),
            reversals ==> forall|t: int|
                0 <= t < kept@.len() ==> is_sequence_symbol(#[trigger] kept@[t]),
        decreases seq@.len() - j,
    {
        let x: u8 = seq[j];
        proof {
            assert(seq@.take(j + 1).drop_last() =~= seq@.take(j as int));
            assert(seq@.take(j + 1).last() == x);
            assert(!is_sentinel(seq@[j as int]));
            if reversals {
                assert(is_sequence_symbol(seq@[j as int]));
            }
        }
        if n_alphabet || x != READ_ERR {
            kept.push(x);
            proof {
                if n_alphabet {
                    assert(kept@ =~= seq@.take(j + 1));
                }
            }
        } else {
            removed = removed + 1;
        }
        j = j + 1;
    }
    assert(seq@.take(j as int) =~= seq@);
    (kept, removed)
}

/// The sequence read backwards.
fn reversed(seq: &Vec<u8>) -> (r: Vec<u8>)
    ensures
        r@ == seq@.reverse(),
{
    let n: usize = seq.len();
    let mut out: Vec<u8> = Vec::new();
    let mut j: usize = 0;
    while j < n
        invariant
            0 <= j <= n,
            n == seq@.len(),
            out@.len() == j,
            forall|t: int| 0 <= t < j ==> #[trigger] out@[t] == seq@[n - 1 - t],
        decreases n - j,
    {
        out.push(seq[n - 1 - j]);
        j = j + 1;
    }
    assert(out@ =~= seq@.reverse());
    out
}

/// The sequence with every symbol complemented.
fn complemented(seq: &Vec<u8>) -> (r: Vec<u8>)
    requires
        forall|t: int| 0 <= t < seq@.len() ==> is_sequence_symbol(#[trigger] seq@[t]),
    ensures
        r@ == complement_seq(seq@),
        forall|t: int| 0 <= t < r@.len() ==> is_sequence_symbol(#[trigger] r@[t]),
{
    let mut out: Vec<u8> = Vec::new();
    let mut j: usize = 0;
    while j < seq.len()
        invariant
            0 <= j <= seq@.len(),
            out@.len() == j,
            forall|t: int| 0 <= t < seq@.len() ==> is_sequence_symbol(#[trigger] seq@[t]),
            forall|t: int| 0 <= t < j ==> #[trigger] out@[t] == complement_of(seq@[t]),
            forall|t: int| 0 <= t < j ==> is_sequence_symbol(#[trigger] out@[t]),
        decreases seq@.len() - j,
    {
        out.push(complement_u8(seq[j]));
        j = j + 1;
    }
    assert(out@ =~= complement_seq(seq@));
    out
}

/// Every record gives as many names as stored sequences.
pub proof fn lemma_names_count(records: Seq<Record>, reversals: bool, n_alphabet: bool)
    ensures
        names_of(records, reversals).len() == entries_of(records, reversals, n_alphabet).len(),
    decreases records.len(),
{
    if records.len() > 0 {
        lemma_names_count(records.drop_last(), reversals, n_alphabet);
    }
}

proof fn lemma_unreadable_total_fits(records: Seq<Record>)
    ensures
        unreadable_total(records) >= 0,
    decreases records.len(),
{
    if records.len() > 0 {
        lemma_unreadable_total_fits(records.drop_last());
        lemma_unreadable_count_fits(records.last().seq@);
    }
}

proof fn lemma_unreadable_count_fits(s: Seq<u8>)
    ensures
        0 <= unreadable_count(s) <= s.len(),
    decreases s.len(),
{
    if s.len() > 0 {
        lemma_unreadable_count_fits(s.drop_last());
    }
}

/// Closed by the end byte, a text that holds its stored sequences is a
/// well-formed corpus, and its sequences are the stored ones.
pub proof fn lemma_assembled_wf(maps: Maps, body: Seq<u8>, entries: Seq<Seq<u8>>)
    requires
        holds_entries(body, maps.indexes@, entries),
        maps.text@ == body.push(END_MARK),
        maps.id2name_vec@.len() == entries.len(),
    ensures
        maps.wf(),
        forall|id: int| 0 <= id < entries.len() ==> #[trigger] maps.sequence(id) == entries[id],
{
    let text = maps.text@;
    let indexes = maps.indexes@;
    let n = entries.len() as int;
    assert forall|id: int| 0 <= id < n implies #[trigger] maps.sequence(id) == entries[id]
        && maps.end_of(id) - maps.start_of(id) == entries[id].len() by {
        assert(1 <= indexes[id]);
        if id < n - 1 {
            assert(indexes[id + 1] == indexes[id] + entries[id].len() + 1);
        }
        assert(maps.sequence(id) =~= body.subrange(
            indexes[id] as int,
            indexes[id] + entries[id].len(),
        ));
    }
    assert forall|p: int| 0 <= p < text.len() - 1 implies (#[trigger] text[p] == BOUNDARY
        <==> maps.is_start(p + 1)) && text[p] != END_MARK by {
        assert(covered(indexes, entries, p));
        let w = choose|w: int| #[trigger] covers(indexes, entries, w, p);
        assert(1 <= indexes[w]);
        if p == indexes[w] - 1 {
            assert(indexes[w] == p + 1);
        } else {
            let j = p - indexes[w];
            assert(body.subrange(indexes[w] as int, indexes[w] + entries[w].len())[j] == body[p]);
            assert(!is_sentinel(entries[w][j]));
            if maps.is_start(p + 1) {
                let other = choose|id: int| 0 <= id < indexes.len() && #[trigger] indexes[id] == p + 1;
                assert(1 <= indexes[other]);
                assert(body[indexes[other] - 1] == BOUNDARY);
            }
        }
    }
    assert forall|i: int, j: int| 0 <= i < j < indexes.len() implies #[trigger] indexes[i]
        < #[trigger] indexes[j] by {
        assert(indexes[i] + entries[i].len() < indexes[j]);
    }
    assert forall|i: int| 0 <= i < indexes.len() implies 1 <= #[trigger] indexes[i] < text.len() by {
        assert(1 <= indexes[i]);
        assert(indexes[i] + entries[i].len() <= body.len());
    }
    assert forall|i: int| 0 <= i < indexes.len() implies maps.end_of(i) - #[trigger] maps.start_of(
        i,
    ) <= i32::MAX by {
        assert(maps.sequence(i) == entries[i]);
        assert(1 <= indexes[i]);
    }
}

} // verus!
