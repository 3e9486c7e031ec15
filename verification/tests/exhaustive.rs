use aspop_solver::modes::kucherov::KucherovMode;
use aspop_solver::modes::valimaki::ValimakiMode;
use aspop_solver::modes::Mode;
use aspop_solver::prepare::{prepare_maps, Record};
use aspop_solver::rate::ErrorRate;
use aspop_solver::solve::{build_index, try_solve_an_id};
use aspop_solver::structs::run_config::Config;
use aspop_solver::structs::solutions::Solution;
use aspop_solver::useful::Orientation;

fn config_with_inclusions(num: u32, den: u32, thresh: i32) -> Config {
    Config { inclusions: true, ..config(num, den, thresh) }
}

fn config(num: u32, den: u32, thresh: i32) -> Config {
    Config {
        input: String::new(),
        output: String::new(),
        err_rate: ErrorRate::new(num, den).unwrap(),
        thresh,
        format_line: false,
        greedy_output: false,
        reversals: false,
        inclusions: false,
        edit_distance: false,
        verbosity: 0,
        print: false,
        n_alphabet: false,
        track_progress: false,
        worker_threads: 1,
    }
}

// a small linear congruential generator: the tests need variety, not randomness
fn next(state: &mut u64) -> u64 {
    *state = state.wrapping_mul(6364136223846793005).wrapping_add(1442695040888963407);
    *state >> 33
}

// sequences grown from one another, so that overlaps with a few errors are common
fn related_sequences(state: &mut u64, count: usize) -> Vec<Vec<u8>> {
    let letters = b"ACGT";
    let mut sequences: Vec<Vec<u8>> = Vec::new();
    for i in 0..count {
        let len = 10 + (next(state) % 9) as usize;
        let mut seq: Vec<u8> = Vec::new();
        if i > 0 && next(state) % 4 != 0 {
            let parent = &sequences[(next(state) % i as u64) as usize];
            let keep = 4 + (next(state) % 8) as usize;
            let keep = keep.min(parent.len());
            seq.extend_from_slice(&parent[parent.len() - keep..]);
            for symbol in seq.iter_mut() {
                if next(state) % 6 == 0 {
                    *symbol = letters[(next(state) % 4) as usize];
                }
            }
        }
        while seq.len() < len {
            seq.push(letters[(next(state) % 4) as usize]);
        }
        sequences.push(seq);
    }
    sequences
}

// every overlap of a suffix of one sequence with a prefix of another, by trying them all
fn all_overlaps(sequences: &[Vec<u8>], config: &Config) -> Vec<Solution> {
    let mut expected: Vec<Solution> = Vec::new();
    for (id_x, x) in sequences.iter().enumerate() {
        for (id_y, y) in sequences.iter().enumerate() {
            if id_x == id_y {
                continue;
            }
            for len in config.thresh as usize..=x.len().min(y.len()) {
                let errors =
                    x[x.len() - len..].iter().zip(y[..len].iter()).filter(|(a, b)| a != b).count();
                if errors as u32 > config.err_rate.floor_mul(len as u32) {
                    continue;
                }
                let left = (x.len() - len) as i32;
                let right = (y.len() - len) as i32;
                let solution = if id_x < id_y {
                    Solution {
                        id_a: id_x,
                        id_b: id_y,
                        orientation: Orientation::Normal,
                        overhang_left_a: left,
                        overhang_right_b: right,
                        overlap_a: len,
                        overlap_b: len,
                        errors: errors as u32,
                    }
                } else {
                    Solution {
                        id_a: id_y,
                        id_b: id_x,
                        orientation: Orientation::Normal,
                        overhang_left_a: -left,
                        overhang_right_b: -right,
                        overlap_a: len,
                        overlap_b: len,
                        errors: errors as u32,
                    }
                };
                if !expected.contains(&solution) {
                    expected.push(solution);
                }
            }
        }
    }
    expected.sort();
    expected
}

fn found_overlaps(sequences: &[Vec<u8>], config: &Config, mode: &Mode) -> Vec<Solution> {
    let records: Vec<Record> = sequences
        .iter()
        .enumerate()
        .map(|(i, seq)| Record { name: format!("s{}", i), seq: seq.clone() })
        .collect();
    let (maps, _) = prepare_maps(&records, config);
    let index = build_index(&maps, config).unwrap();
    let mut found: Vec<Solution> = Vec::new();
    for id_a in 0..maps.num_ids() {
        let solutions = try_solve_an_id(config, &maps, id_a, &index, mode).unwrap();
        for i in 0..solutions.len() {
            let s = solutions.get(i);
            if !found.contains(&s) {
                found.push(s);
            }
        }
    }
    found.sort();
    found
}

#[test]
fn the_balanced_scheme_finds_every_hamming_overlap() {
    let mode = Mode::Kucherov(KucherovMode::new(2));
    let mut state: u64 = 2024;
    let settings = [(0, 1, 4), (1, 10, 5), (1, 5, 5), (1, 4, 6), (1, 3, 4), (2, 5, 8)];
    let mut overlaps = 0;
    let mut with_errors = 0;
    for round in 0..60 {
        let sequences = related_sequences(&mut state, 6);
        let (num, den, thresh) = settings[round % settings.len()];
        let c = config(num, den, thresh);
        let expected = all_overlaps(&sequences, &c);
        let found = found_overlaps(&sequences, &c, &mode);
        assert_eq!(found, expected, "round {} with rate {}/{} and threshold {}", round, num, den, thresh);
        overlaps += expected.len();
        with_errors += expected.iter().filter(|s| s.errors > 0).count();
    }
    // the comparison is not an empty one
    assert!(overlaps >= 100 && with_errors >= 50);
}

#[test]
fn the_equal_scheme_finds_no_wrong_overlap() {
    let mode = Mode::Valimaki(ValimakiMode::new());
    let mut state: u64 = 7;
    for round in 0..30 {
        let sequences = related_sequences(&mut state, 5);
        let c = config(1, 5, 5);
        let expected = all_overlaps(&sequences, &c);
        let found = found_overlaps(&sequences, &c, &mode);
        for s in found.iter() {
            assert!(expected.contains(s), "round {}: {:?} is no overlap", round, s);
        }
    }
}

// short sequences cut out of longer ones, with a few symbols changed
fn with_cuttings(state: &mut u64, count: usize, cuttings: usize) -> Vec<Vec<u8>> {
    let letters = b"ACGT";
    let mut sequences = related_sequences(state, count);
    for _ in 0..cuttings {
        let parent = sequences[(next(state) % count as u64) as usize].clone();
        let len = 6 + (next(state) % 4) as usize;
        let from = (next(state) % (parent.len() - len + 1) as u64) as usize;
        let mut cutting = parent[from..from + len].to_vec();
        for symbol in cutting.iter_mut() {
            if next(state) % 9 == 0 {
                *symbol = letters[(next(state) % 4) as usize];
            }
        }
        sequences.push(cutting);
    }
    sequences
}

// every place at which one sequence lies inside another, by trying them all
fn all_inclusions(sequences: &[Vec<u8>], config: &Config) -> Vec<Solution> {
    let mut expected: Vec<Solution> = Vec::new();
    for (id_x, x) in sequences.iter().enumerate() {
        for (id_y, y) in sequences.iter().enumerate() {
            if id_x == id_y || x.len() > y.len() || x.len() < config.thresh as usize {
                continue;
            }
            for place in 0..=y.len() - x.len() {
                let errors =
                    x.iter().zip(y[place..].iter()).filter(|(a, b)| a != b).count() as u32;
                if errors > config.err_rate.floor_mul(x.len() as u32) {
                    continue;
                }
                let before = place as i32;
                let behind = (y.len() - place - x.len()) as i32;
                let solution = if id_x < id_y {
                    Solution {
                        id_a: id_x,
                        id_b: id_y,
                        orientation: Orientation::Normal,
                        overhang_left_a: -before,
                        overhang_right_b: behind,
                        overlap_a: x.len(),
                        overlap_b: x.len(),
                        errors,
                    }
                } else {
                    Solution {
                        id_a: id_y,
                        id_b: id_x,
                        orientation: Orientation::Normal,
                        overhang_left_a: before,
                        overhang_right_b: -behind,
                        overlap_a: x.len(),
                        overlap_b: x.len(),
                        errors,
                    }
                };
                if !expected.contains(&solution) {
                    expected.push(solution);
                }
            }
        }
    }
    expected
}

#[test]
fn the_balanced_scheme_finds_every_inclusion() {
    let mode = Mode::Kucherov(KucherovMode::new(2));
    let mut state: u64 = 4711;
    let settings = [(0, 1, 4), (1, 8, 5), (1, 5, 5), (1, 4, 6), (1, 3, 4)];
    let mut inclusions = 0;
    let mut inside = 0;
    for round in 0..50 {
        let sequences = with_cuttings(&mut state, 4, 3);
        let (num, den, thresh) = settings[round % settings.len()];
        let c = config_with_inclusions(num, den, thresh);
        let mut expected = all_overlaps(&sequences, &c);
        for s in all_inclusions(&sequences, &c) {
            inclusions += 1;
            if s.overhang_left_a != 0 && s.overhang_right_b != 0 {
                inside += 1;
            }
            if !expected.contains(&s) {
                expected.push(s);
            }
        }
        expected.sort();
        let found = found_overlaps(&sequences, &c, &mode);
        assert_eq!(found, expected, "round {} with rate {}/{} and threshold {}", round, num, den, thresh);
    }
    // the comparison is not an empty one
    assert!(inclusions >= 50 && inside >= 20, "{} inclusions, {} of them inside", inclusions, inside);
}

fn reverse_complement(seq: &[u8]) -> Vec<u8> {
    seq.iter()
        .rev()
        .map(|c| match c {
            b'A' => b'T',
            b'C' => b'G',
            b'G' => b'C',
            b'T' => b'A',
            other => *other,
        })
        .collect()
}

// every overlap between two sequences of which each may be read either way;
// entry 2i is sequence i, entry 2i + 1 its reverse complement
fn all_overlaps_either_way(sequences: &[Vec<u8>], config: &Config) -> Vec<Solution> {
    let mut entries: Vec<Vec<u8>> = Vec::new();
    for seq in sequences {
        entries.push(seq.clone());
        entries.push(reverse_complement(seq));
    }
    let mut expected: Vec<Solution> = Vec::new();
    for (id_x, x) in entries.iter().enumerate() {
        for (id_y, y) in entries.iter().enumerate() {
            if id_x / 2 == id_y / 2 {
                continue;
            }
            for len in config.thresh as usize..=x.len().min(y.len()) {
                let errors =
                    x[x.len() - len..].iter().zip(y[..len].iter()).filter(|(a, b)| a != b).count();
                if errors as u32 > config.err_rate.floor_mul(len as u32) {
                    continue;
                }
                let left = (x.len() - len) as i32;
                let right = (y.len() - len) as i32;
                let orientation =
                    if (id_x + id_y) % 2 == 1 { Orientation::Reversed } else { Orientation::Normal };
                let (mut id_a, mut id_b, mut oha, mut ohb) =
                    if id_x < id_y { (id_x, id_y, left, right) } else { (id_y, id_x, -left, -right) };
                if id_a % 2 == 1 {
                    // read both the other way
                    id_a -= 1;
                    id_b = if id_b % 2 == 1 { id_b - 1 } else { id_b + 1 };
                    let turned = (-ohb, -oha);
                    oha = turned.0;
                    ohb = turned.1;
                }
                let solution = Solution {
                    id_a,
                    id_b,
                    orientation,
                    overhang_left_a: oha,
                    overhang_right_b: ohb,
                    overlap_a: len,
                    overlap_b: len,
                    errors: errors as u32,
                };
                if !expected.contains(&solution) {
                    expected.push(solution);
                }
            }
        }
    }
    expected.sort();
    expected
}

#[test]
fn the_balanced_scheme_finds_every_overlap_read_either_way() {
    let mode = Mode::Kucherov(KucherovMode::new(2));
    let mut state: u64 = 31337;
    let settings = [(0, 1, 4), (1, 8, 5), (1, 5, 5), (1, 4, 6)];
    let mut overlaps = 0;
    let mut reversed = 0;
    for round in 0..40 {
        let mut sequences = related_sequences(&mut state, 4);
        // read one of them the other way, so that overlaps of both kinds occur
        let turned = reverse_complement(&sequences[round % 4]);
        sequences[round % 4] = turned;
        let (num, den, thresh) = settings[round % settings.len()];
        let c = Config { reversals: true, ..config(num, den, thresh) };
        let expected = all_overlaps_either_way(&sequences, &c);
        let found = found_overlaps(&sequences, &c, &mode);
        assert_eq!(found, expected, "round {} with rate {}/{} and threshold {}", round, num, den, thresh);
        overlaps += expected.len();
        reversed += expected.iter().filter(|s| s.orientation == Orientation::Reversed).count();
    }
    // the comparison is not an empty one
    assert!(overlaps >= 50 && reversed >= 20, "{} overlaps, {} of them reversed", overlaps, reversed);
}
