use aspop_solver::modes::{default_mode, Mode};
use aspop_solver::prepare::{prepare_maps, Record};
use aspop_solver::rate::ErrorRate;
use aspop_solver::solve::{build_index, try_solve_an_id};
use aspop_solver::structs::run_config::Config;
use aspop_solver::structs::solutions::Solution;
use aspop_solver::useful::Orientation;

fn config(num: u32, den: u32, thresh: i32, reversals: bool, inclusions: bool, edit: bool) -> Config {
    Config {
        input: String::new(),
        output: String::new(),
        err_rate: ErrorRate::new(num, den).unwrap(),
        thresh,
        format_line: false,
        greedy_output: false,
        reversals,
        inclusions,
        edit_distance: edit,
        verbosity: 0,
        print: false,
        n_alphabet: true,
        track_progress: false,
        worker_threads: 1,
    }
}

fn solve_all(sequences: &[(&str, &[u8])], config: &Config, mode: &Mode) -> Vec<Solution> {
    let records: Vec<Record> = sequences
        .iter()
        .map(|(name, seq)| Record { name: name.to_string(), seq: seq.to_vec() })
        .collect();
    let (maps, _) = prepare_maps(&records, config);
    let index = build_index(&maps, config).unwrap();
    let mut found: Vec<Solution> = Vec::new();
    for id_a in 0..maps.num_ids() {
        let solutions = try_solve_an_id(config, &maps, id_a, &index, mode).unwrap();
        for i in 0..solutions.len() {
            let s = solutions.get(i);
            if !found.contains(&s) {
                found.push(s);
            }
        }
    }
    found.sort();
    found
}

fn solution(
    id_a: usize,
    id_b: usize,
    orientation: Orientation,
    oha: i32,
    ohb: i32,
    ola: usize,
    olb: usize,
    errors: u32,
) -> Solution {
    Solution {
        id_a,
        id_b,
        orientation,
        overhang_left_a: oha,
        overhang_right_b: ohb,
        overlap_a: ola,
        overlap_b: olb,
        errors,
    }
}

#[test]
fn hamming_overlap_is_found() {
    let c = config(2, 100, 4, false, false, false);
    let found = solve_all(&[("x", b"AAAAACCCCC"), ("y", b"CCCCCGGGGGG")], &c, &default_mode());
    assert_eq!(
        found,
        vec![
            solution(0, 1, Orientation::Normal, 5, 6, 5, 5, 0),
            solution(0, 1, Orientation::Normal, 6, 7, 4, 4, 0),
        ]
    );
}

#[test]
fn edit_overlap_needs_edit_distance() {
    let sequences: [(&str, &[u8]); 2] = [("x", b"GGGGGACGTTA"), ("y", b"ACGTATTTTTT")];
    let with_edit = solve_all(&sequences, &config(2, 10, 5, false, false, true), &default_mode());
    let without = solve_all(&sequences, &config(2, 10, 5, false, false, false), &default_mode());
    assert_eq!(with_edit, vec![solution(0, 1, Orientation::Normal, 5, 6, 6, 5, 1)]);
    assert!(without.is_empty());
}

#[test]
fn reversed_overlap_is_oriented() {
    let c = config(2, 100, 5, true, false, false);
    let found = solve_all(&[("x", b"TTTTTTACGGTCA"), ("y", b"CCCCCCTGACCGT")], &c, &default_mode());
    assert_eq!(found, vec![solution(0, 3, Orientation::Reversed, 6, 6, 7, 7, 0)]);
}

#[test]
fn inclusion_needs_inclusions() {
    let sequences: [(&str, &[u8]); 2] = [("x", b"ACGTTGCA"), ("y", b"TTTTACGTTGCATTTT")];
    let with = solve_all(&sequences, &config(2, 100, 6, false, true, false), &default_mode());
    let without = solve_all(&sequences, &config(2, 100, 6, false, false, false), &default_mode());
    assert_eq!(with, vec![solution(0, 1, Orientation::Normal, -4, 4, 8, 8, 0)]);
    assert!(without.is_empty());
}

#[test]
fn an_overlap_with_many_errors_is_found() {
    // 4 of 10 symbols differ, and 4 errors are allowed in 10 symbols
    let c = config(4, 10, 8, false, false, false);
    let found = solve_all(&[("x", b"ACGTACGTAC"), ("y", b"TCGTAGGTCA")], &c, &default_mode());
    assert!(found.contains(&solution(0, 1, Orientation::Normal, 0, 0, 10, 10, 4)));
    let strict = config(39, 100, 8, false, false, false);
    let none = solve_all(&[("x", b"ACGTACGTAC"), ("y", b"TCGTAGGTCA")], &strict, &default_mode());
    assert!(!none.contains(&solution(0, 1, Orientation::Normal, 0, 0, 10, 10, 4)));
}

#[test]
fn unreadable_symbols_match_nothing_in_the_search() {
    // the overlap CCNCC is exact symbol by symbol, but the search reads N as an error
    let sequences: [(&str, &[u8]); 2] = [("x", b"AAAAACCNCC"), ("y", b"CCNCCGGGGGG")];
    let exact = solve_all(&sequences, &config(0, 1, 5, false, false, false), &default_mode());
    assert!(exact.is_empty());
    let lenient = solve_all(&sequences, &config(1, 5, 5, false, false, false), &default_mode());
    assert_eq!(lenient, vec![solution(0, 1, Orientation::Normal, 5, 6, 5, 5, 0)]);
}

#[test]
fn a_pattern_below_the_threshold_finds_nothing() {
    let c = config(1, 10, 12, false, false, false);
    let found = solve_all(&[("x", b"AAAAACCCCC"), ("y", b"CCCCCGGGGGG")], &c, &default_mode());
    assert!(found.is_empty());
}
