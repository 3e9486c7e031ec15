use aspop_solver::measuring::{measure_agglutinate, wheat_from_chaff, Measurement};
use aspop_solver::modes::default_mode;
use aspop_solver::output::{header_line, solution_row};
use aspop_solver::prepare::{prepare_maps, Record};
use aspop_solver::progress::time_display;
use aspop_solver::rate::ErrorRate;
use aspop_solver::solve::build_index;
use aspop_solver::structs::run_config::Config;
use aspop_solver::structs::solutions::{Candidate, CandidateSet, Solution};
use aspop_solver::useful::Orientation;

fn measurement(suff_blocks: u64, base: u64) -> Measurement {
    Measurement {
        suff_blocks,
        search_nanos: base,
        veri_true_nanos: base + 1,
        veri_false_nanos: base + 2,
        sol_true_count: base + 3,
        sol_false_count: base + 4,
    }
}

fn config() -> Config {
    Config {
        input: String::new(),
        output: String::new(),
        err_rate: ErrorRate::new(2, 100).unwrap(),
        thresh: 4,
        format_line: false,
        greedy_output: false,
        reversals: false,
        inclusions: false,
        edit_distance: false,
        verbosity: 0,
        print: false,
        n_alphabet: true,
        track_progress: false,
        worker_threads: 1,
    }
}

#[test]
fn measurements_add_up() {
    let sum = measurement(3, 10).add(measurement(3, 100));
    assert_eq!(
        sum,
        Measurement {
            suff_blocks: 3,
            search_nanos: 110,
            veri_true_nanos: 112,
            veri_false_nanos: 114,
            sol_true_count: 116,
            sol_false_count: 118,
        }
    );
    assert_eq!(measurement(3, 10).add(Measurement::null(3)), measurement(3, 10));
}

#[test]
fn measurements_divide() {
    assert_eq!(
        measurement(3, 10).divz(4),
        Measurement {
            suff_blocks: 3,
            search_nanos: 2,
            veri_true_nanos: 2,
            veri_false_nanos: 3,
            sol_true_count: 3,
            sol_false_count: 3,
        }
    );
    assert_eq!(Measurement::null(7).divz(9), Measurement::null(7));
    assert_eq!(Measurement::null(7).suff_blocks, 7);
}

#[test]
fn measurements_are_summed_by_filter_length() {
    let sums = measure_agglutinate(vec![
        vec![measurement(3, 10), measurement(2, 20)],
        vec![],
        vec![measurement(3, 100), measurement(1, 5), measurement(3, 1000)],
    ]);
    assert_eq!(sums.len(), 3);
    assert_eq!(sums[&1], measurement(1, 5));
    assert_eq!(sums[&2], measurement(2, 20));
    assert_eq!(
        sums[&3],
        Measurement {
            suff_blocks: 3,
            search_nanos: 1110,
            veri_true_nanos: 1113,
            veri_false_nanos: 1116,
            sol_true_count: 1119,
            sol_false_count: 1122,
        }
    );
    assert!(measure_agglutinate(Vec::new()).is_empty());
}

fn x_and_y() -> Vec<Record> {
    vec![
        Record { name: "x".to_string(), seq: b"AAAAACCCCC".to_vec() },
        Record { name: "y".to_string(), seq: b"CCCCCGGGGGG".to_vec() },
    ]
}

#[test]
fn candidates_part_into_wheat_and_chaff() {
    let c = config();
    let (maps, _) = prepare_maps(&x_and_y(), &c);
    let good = Candidate { id_b: 0, overlap_a: 5, overlap_b: 5, overhang_left_a: 6 };
    let bad = Candidate { id_b: 0, overlap_a: 6, overlap_b: 6, overhang_left_a: 5 };
    let mut candidates = CandidateSet::new();
    candidates.insert(bad);
    candidates.insert(good);
    let (wheat, chaff) = wheat_from_chaff(1, candidates, &c, &maps);
    assert_eq!(wheat.len(), 1);
    assert_eq!(chaff.len(), 1);
    assert!(wheat.contains(&good));
    assert!(chaff.contains(&bad));
}

#[test]
fn every_searched_filter_is_measured() {
    let c = config();
    let (maps, _) = prepare_maps(&x_and_y(), &c);
    let index = build_index(&maps, &c).unwrap();
    let mode = default_mode();
    // y has 11 symbols and no error is allowed: blocks of 3 and 8, one filter of 2 blocks
    assert_eq!(mode.get_block_lengths(11, c.err_rate, 4), vec![3, 8]);
    let of_y = index.measures(maps.get_string(1), &c, &maps, 1, &mode);
    assert_eq!(of_y.len(), 1);
    assert_eq!(of_y[0].suff_blocks, 2);
    assert_eq!(of_y[0].sol_true_count, 2);
    assert_eq!(of_y[0].sol_false_count, 0);
    let of_x = index.measures(maps.get_string(0), &c, &maps, 0, &mode);
    assert_eq!(of_x.len(), 1);
    assert_eq!(of_x[0].sol_true_count, 0);
    let found = index.generate_candidates(maps.get_string(1), &c, &maps, 1, &mode);
    assert_eq!(found.len(), 2);
    assert!(found.contains(&Candidate { id_b: 0, overlap_a: 5, overlap_b: 5, overhang_left_a: 6 }));
    assert!(found.contains(&Candidate { id_b: 0, overlap_a: 4, overlap_b: 4, overhang_left_a: 7 }));
}

#[test]
fn durations_read_well() {
    assert_eq!(time_display(0), "< 1 sec");
    assert_eq!(time_display(1), "~1 sec");
    assert_eq!(time_display(199), "~199 sec");
    assert_eq!(time_display(200), "~3 min");
    assert_eq!(time_display(7199), "~119 min");
    assert_eq!(time_display(7200), "~2 hrs");
    assert_eq!(time_display(359999), "~99 hrs");
    // three days are over before the hundredth hour: no duration is shown in days
    assert_eq!(time_display(259199), "~71 hrs");
    assert_eq!(time_display(360000), "~0 weeks");
    assert_eq!(time_display(604800), "~1 weeks");
    assert_eq!(time_display(1814399), "~2 weeks");
    assert_eq!(time_display(1814400), "~0 months");
    assert_eq!(time_display(5184000), "~2 months");
    assert_eq!(time_display(10368000), "~4 years");
    assert_eq!(time_display(157679999), "~60 years");
    assert_eq!(time_display(157680000), "eternity");
    assert_eq!(time_display(u64::MAX), "eternity");
}

#[test]
fn the_output_table() {
    assert_eq!(header_line(), "idA\tidB\tO\tOHA\tOHB\tOLA\tOLB\tK\n");
    let s = Solution {
        id_a: 0,
        id_b: 3,
        orientation: Orientation::Reversed,
        overhang_left_a: -12,
        overhang_right_b: 0,
        overlap_a: 105,
        overlap_b: 98,
        errors: 7,
    };
    assert_eq!(solution_row(&s, "read one", "read_2"), "read one\tread_2\tI\t-12\t0\t105\t98\t7\n");
    let t = Solution { orientation: Orientation::Normal, overhang_left_a: i32::MIN, overhang_right_b: i32::MAX, ..s };
    assert_eq!(solution_row(&t, "", "b"), "\tb\tN\t-2147483648\t2147483647\t105\t98\t7\n");
}
