use aspop_solver::verification;
use aspop_solver::verification::overlap_errors;

#[test]
fn modified_levenshtein() {
    assert_eq!(verification::modified_levenshtein(b"", b""), 0);
    assert_eq!(verification::modified_levenshtein(b"A", b"A"), 0);
    assert_eq!(verification::modified_levenshtein(b"N", b"N"), 1);
    assert_eq!(verification::modified_levenshtein(b"AA", b"AA"), 0);
    assert_eq!(verification::modified_levenshtein(b"AN", b"AN"), 1);
    assert_eq!(verification::modified_levenshtein(b"AA", b"ATA"), 1);
    assert_eq!(verification::modified_levenshtein(b"ATA", b"AA"), 1);
    assert_eq!(verification::modified_levenshtein(b"AAAAA", b"CAAAC"), 2);
    assert_eq!(verification::modified_levenshtein(b"TTTTA", b"TTTT"), 2);
    assert_eq!(verification::modified_levenshtein(b"G", b""), std::u32::MAX);
    assert_eq!(verification::modified_levenshtein(b"GG", b"G"), std::u32::MAX);
}

#[test]
fn levenshtein_of_identical_strings_is_zero() {
    assert_eq!(overlap_errors(b"ACGTTGCA", b"ACGTTGCA", true), 0);
    assert_eq!(overlap_errors(b"", b"", true), 0);
}

#[test]
fn levenshtein_counts_one_insertion() {
    assert_eq!(overlap_errors(b"AA", b"ATA", true), 1);
    assert_eq!(overlap_errors(b"ATA", b"AA", true), 1);
}

#[test]
fn hamming_counts_differing_positions() {
    assert_eq!(overlap_errors(b"GTCTGCATGCG", b"TTTAGCTAGCG", false), 5);
    assert_eq!(overlap_errors(b"ACGT", b"ACGT", false), 0);
}

#[test]
fn levenshtein_against_the_empty_string_is_the_length() {
    assert_eq!(overlap_errors(b"", b"ACG", true), 3);
    assert_eq!(overlap_errors(b"ACGT", b"", true), 4);
    assert_eq!(overlap_errors(b"ACGT", b"TGCA", true), 4);
    assert_eq!(overlap_errors(b"ACCGTGGAT", b"AAAAACCGTTGAT", true), 5);
}

#[test]
fn the_walk_distance_reads_no_unreadable_symbol() {
    assert_eq!(verification::modified_levenshtein(b"ANA", b"ANA"), 1);
    assert_eq!(verification::modified_levenshtein(b"NN", b"NN"), 2);
    assert_eq!(verification::modified_levenshtein(b"ACGT", b"AGT"), 1);
    assert_eq!(verification::modified_levenshtein(b"A", b"AA"), std::u32::MAX);
    assert_eq!(verification::modified_levenshtein(b"", b"A"), std::u32::MAX);
    assert_eq!(verification::modified_levenshtein(b"AC", b"CA"), 2);
}
