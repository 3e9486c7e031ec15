use aspop_solver::index::{Interval, TextIndex};

fn symbols() -> Vec<u8> {
    b"ACGNT".to_vec()
}

#[test]
fn backward_extension_finds_the_pattern() {
    let text = b"GCCTTAACATTATTACGCCTA#".to_vec();
    let index = TextIndex::build(&text, &symbols()).unwrap();
    assert_eq!(index.text_len(), 22);
    let all = index.full_interval();
    assert_eq!(all, Interval { lower: 0, upper: 22 });
    // the pattern TTA, last symbol first
    let a = index.extend(&all, b'A');
    let ta = index.extend(&a, b'T');
    let tta = index.extend(&ta, b'T');
    assert_eq!(index.positions(&tta), vec![3, 12, 9]);
}

#[test]
fn the_tables_count_the_text() {
    let text = b"GCCTTAACATTATTACGCCTA#".to_vec();
    let index = TextIndex::build(&text, &symbols()).unwrap();
    // one end mark, then 6 A, 6 C, 2 G, no N, 7 T
    assert_eq!(index.less(b'A'), 1);
    assert_eq!(index.less(b'C'), 7);
    assert_eq!(index.less(b'G'), 13);
    assert_eq!(index.less(b'N'), 15);
    assert_eq!(index.less(b'T'), 15);
    assert_eq!(index.rank(b'T', 0), 0);
    assert_eq!(index.rank(b'T', 22), 7);
    assert_eq!(index.rank(b'A', 22), 6);
    // the transform is ATTATTCAGGACCC#CTTTCAA
    assert_eq!(index.rank(b'A', 1), 1);
    assert_eq!(index.rank(b'T', 3), 2);
    assert_eq!(index.rank(b'C', 14), 4);
}

#[test]
fn the_suffix_array_orders_the_suffixes() {
    let text = b"GCCTTAACATTATTACGCCTA#".to_vec();
    let index = TextIndex::build(&text, &symbols()).unwrap();
    let rows = index.positions(&index.full_interval());
    assert_eq!(
        rows,
        vec![21, 20, 5, 6, 14, 11, 8, 7, 17, 1, 15, 18, 2, 16, 0, 19, 4, 13, 10, 3, 12, 9]
    );
    for pair in rows.windows(2) {
        assert!(text[pair[0]..] < text[pair[1]..]);
    }
}

#[test]
fn an_empty_range_has_no_positions() {
    let text = b"ACGT#".to_vec();
    let index = TextIndex::build(&text, &symbols()).unwrap();
    let none = index.extend(&index.full_interval(), b'N');
    assert_eq!(none.lower, none.upper);
    assert!(index.positions(&none).is_empty());
    assert!(index.positions(&Interval { lower: 3, upper: 1 }).is_empty());
}

#[test]
fn texts_that_cannot_be_indexed_are_refused() {
    assert!(TextIndex::build(&b"".to_vec(), &symbols()).is_none());
    // the last byte must be the smallest, and only once in the text
    assert!(TextIndex::build(&b"ACGT".to_vec(), &symbols()).is_none());
    assert!(TextIndex::build(&b"AC#GT#".to_vec(), &symbols()).is_none());
    // no byte may exceed the largest symbol
    assert!(TextIndex::build(&b"ACGU#".to_vec(), &symbols()).is_none());
    assert!(TextIndex::build(&b"ACGT#".to_vec(), &Vec::new()).is_none());
    // the boundary byte must not exceed the largest symbol either
    assert!(TextIndex::build(&b"!#".to_vec(), &b"!".to_vec()).is_none());
    assert!(TextIndex::build(&b"$ACGT#".to_vec(), &symbols()).is_some());
}

#[test]
fn the_index_knows_its_symbols() {
    let index = TextIndex::build(&b"$ACGT#".to_vec(), &b"ACGT".to_vec()).unwrap();
    assert!(index.knows_all(&b"ACGT".to_vec()));
    assert!(index.knows_all(&b"$".to_vec()));
    assert!(!index.knows_all(&b"ACGNT".to_vec()));
}

#[test]
fn the_smallest_texts_can_be_indexed() {
    let end_only = TextIndex::build(&b"#".to_vec(), &symbols()).unwrap();
    assert_eq!(end_only.text_len(), 1);
    assert_eq!(end_only.positions(&end_only.full_interval()), vec![0]);
    assert_eq!(end_only.less(b'$'), 1);
    assert_eq!(end_only.rank(b'A', 1), 0);
    let one_empty = TextIndex::build(&b"$#".to_vec(), &symbols()).unwrap();
    assert_eq!(one_empty.positions(&one_empty.full_interval()), vec![1, 0]);
    assert_eq!(one_empty.rank(b'$', 2), 1);
    let boundary = one_empty.extend(&one_empty.full_interval(), b'$');
    assert_eq!(one_empty.positions(&boundary), vec![0]);
}
