use aspop_solver::prepare::{prepare_maps, Record};
use aspop_solver::rate::ErrorRate;
use aspop_solver::structs::run_config::{Config, Maps};
use aspop_solver::structs::solutions::{Candidate, CandidateSet, Solution, SolutionSet};
use aspop_solver::useful::Orientation;
use aspop_solver::verification::{
    solution_from_candidate, translate_solution_to_external, verify, verify_all,
};

fn config(num: u32, den: u32, reversals: bool, edit: bool) -> Config {
    Config {
        input: String::new(),
        output: String::new(),
        err_rate: ErrorRate::new(num, den).unwrap(),
        thresh: 4,
        format_line: false,
        greedy_output: false,
        reversals,
        inclusions: false,
        edit_distance: edit,
        verbosity: 0,
        print: false,
        n_alphabet: true,
        track_progress: false,
        worker_threads: 1,
    }
}

fn corpus(sequences: &[(&str, &[u8])], config: &Config) -> Maps {
    let records: Vec<Record> = sequences
        .iter()
        .map(|(name, seq)| Record { name: name.to_string(), seq: seq.to_vec() })
        .collect();
    prepare_maps(&records, config).0
}

fn solution(
    id_a: usize,
    id_b: usize,
    orientation: Orientation,
    oha: i32,
    ohb: i32,
    ola: usize,
    olb: usize,
    errors: u32,
) -> Solution {
    Solution {
        id_a,
        id_b,
        orientation,
        overhang_left_a: oha,
        overhang_right_b: ohb,
        overlap_a: ola,
        overlap_b: olb,
        errors,
    }
}

// the parts of the two sequences, as they are read, that a solution aligns
fn aligned(sol: &Solution, a: &[u8], b: &[u8]) -> (Vec<u8>, Vec<u8>) {
    let a1 = sol.overhang_left_a.max(0) as usize;
    let b1 = (-sol.overhang_left_a).max(0) as usize;
    (a[a1..a1 + sol.overlap_a].to_vec(), b[b1..b1 + sol.overlap_b].to_vec())
}

#[test]
fn a_candidate_from_the_larger_id_is_turned_round() {
    let c = config(2, 100, false, false);
    let maps = corpus(&[("x", b"AAAAACCCCC"), ("y", b"CCCCCGGGGGG")], &c);
    // seen from y, stored as GGGGGGCCCCC: its last 5 symbols begin x, stored as CCCCCAAAAA
    let candidate = Candidate { id_b: 0, overlap_a: 5, overlap_b: 5, overhang_left_a: 6 };
    let sol = solution_from_candidate(candidate, 1, 0, &maps, &c);
    assert_eq!(sol, solution(0, 1, Orientation::Normal, 5, 6, 5, 5, 0));
    let (part_x, part_y) = aligned(&sol, b"AAAAACCCCC", b"CCCCCGGGGGG");
    assert_eq!(part_x, b"CCCCC");
    assert_eq!(part_y, b"CCCCC");
}

#[test]
fn verification_counts_the_errors() {
    let maps = corpus(&[("x", b"AAAAACCTCC"), ("y", b"CCCCCGGGGGG")], &config(2, 10, false, false));
    let candidate = Candidate { id_b: 0, overlap_a: 5, overlap_b: 5, overhang_left_a: 6 };
    let lenient = config(2, 10, false, false);
    assert_eq!(
        verify(1, candidate, &lenient, &maps),
        Some(solution(0, 1, Orientation::Normal, 5, 6, 5, 5, 1))
    );
    let strict = config(19, 100, false, false);
    assert_eq!(verify(1, candidate, &strict, &maps), None);
}

#[test]
fn verification_under_edit_distance() {
    // stored: x as ATTGCAGGGGG, y as TTTTTTATGCA; the last 5 of y against the first 6 of x
    let c = config(2, 10, false, true);
    let maps = corpus(&[("x", b"GGGGGACGTTA"), ("y", b"ACGTATTTTTT")], &c);
    let candidate = Candidate { id_b: 0, overlap_a: 5, overlap_b: 6, overhang_left_a: 6 };
    assert_eq!(
        verify(1, candidate, &c, &maps),
        Some(solution(0, 1, Orientation::Normal, 5, 6, 6, 5, 1))
    );
}

#[test]
fn both_reading_directions_give_one_solution() {
    let c = config(2, 100, true, false);
    let maps = corpus(&[("x", b"TTTTTTACGGTCA"), ("y", b"CCCCCCTGACCGT")], &c);
    assert_eq!(maps.num_ids(), 4);
    // from the reverse complement of y (id 3) towards x (id 0)
    let one = Candidate { id_b: 0, overlap_a: 7, overlap_b: 7, overhang_left_a: 6 };
    // from the reverse complement of x (id 1) towards y (id 2)
    let other = Candidate { id_b: 2, overlap_a: 7, overlap_b: 7, overhang_left_a: 6 };
    let first = solution_from_candidate(one, 3, 0, &maps, &c);
    let second = solution_from_candidate(other, 1, 0, &maps, &c);
    let expected = solution(0, 3, Orientation::Reversed, 6, 6, 7, 7, 0);
    assert_eq!(first, expected);
    assert_eq!(second, expected);
    let mut set = SolutionSet::new();
    set.insert(first);
    set.insert(second);
    assert_eq!(set.len(), 1);
    // x against the reverse complement of y, both as they are read
    let (part_x, part_y) = aligned(&expected, b"TTTTTTACGGTCA", b"ACGGTCAGGGGGG");
    assert_eq!(part_x, b"ACGGTCA");
    assert_eq!(part_y, b"ACGGTCA");
}

#[test]
fn both_roles_give_one_solution() {
    let c = config(2, 100, false, false);
    let maps = corpus(&[("x", b"ACGTACGT"), ("y", b"ACGTACGT")], &c);
    let from_x = Candidate { id_b: 1, overlap_a: 8, overlap_b: 8, overhang_left_a: 0 };
    let from_y = Candidate { id_b: 0, overlap_a: 8, overlap_b: 8, overhang_left_a: 0 };
    let first = solution_from_candidate(from_x, 0, 0, &maps, &c);
    let second = solution_from_candidate(from_y, 1, 0, &maps, &c);
    assert_eq!(first, solution(0, 1, Orientation::Normal, 0, 0, 8, 8, 0));
    assert_eq!(first, second);
}

#[test]
fn translation_by_steps() {
    let c = config(2, 100, true, false);
    let mut sol = solution(5, 2, Orientation::Reversed, 3, 4, 6, 7, 1);
    translate_solution_to_external(&mut sol, &c);
    // roles exchanged: (2, 5, -3, -4, 7, 6); id 2 is even; mirrored: (4, 3)
    assert_eq!(sol, solution(2, 5, Orientation::Reversed, 4, 3, 7, 6, 1));
    let mut odd = solution(3, 6, Orientation::Reversed, 3, 4, 6, 7, 1);
    translate_solution_to_external(&mut odd, &c);
    // companions: (2, 7), mirrored twice
    assert_eq!(odd, solution(2, 7, Orientation::Reversed, 3, 4, 6, 7, 1));
    let plain = config(2, 100, false, false);
    let mut kept = solution(3, 6, Orientation::Normal, 3, 4, 6, 7, 1);
    translate_solution_to_external(&mut kept, &plain);
    assert_eq!(kept, solution(3, 6, Orientation::Normal, -4, -3, 6, 7, 1));
}

#[test]
fn verify_all_keeps_what_passes() {
    let c = config(2, 100, false, false);
    let maps = corpus(&[("x", b"AAAAACCCCC"), ("y", b"CCCCCGGGGGG")], &c);
    let mut candidates = CandidateSet::new();
    candidates.insert(Candidate { id_b: 0, overlap_a: 5, overlap_b: 5, overhang_left_a: 6 });
    candidates.insert(Candidate { id_b: 0, overlap_a: 4, overlap_b: 4, overhang_left_a: 7 });
    // 6 symbols do not match: GCCCCC against CCCCCA
    candidates.insert(Candidate { id_b: 0, overlap_a: 6, overlap_b: 6, overhang_left_a: 5 });
    let solutions = verify_all(1, candidates, &c, &maps);
    assert_eq!(solutions.len(), 2);
    assert!(solutions.contains(&solution(0, 1, Orientation::Normal, 5, 6, 5, 5, 0)));
    assert!(solutions.contains(&solution(0, 1, Orientation::Normal, 6, 7, 4, 4, 0)));
    assert!(verify_all(1, CandidateSet::new(), &c, &maps).len() == 0);
}
