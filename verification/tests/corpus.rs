use aspop_solver::prepare::{complement_u8, is_storable, prepare_maps, Record};
use aspop_solver::rate::ErrorRate;
use aspop_solver::structs::run_config::{Config, ConfigError, Maps};

fn config(reversals: bool, n_alphabet: bool) -> Config {
    Config {
        input: String::new(),
        output: String::new(),
        err_rate: ErrorRate::new(3, 100).unwrap(),
        thresh: 8,
        format_line: false,
        greedy_output: false,
        reversals,
        inclusions: false,
        edit_distance: false,
        verbosity: 0,
        print: false,
        n_alphabet,
        track_progress: false,
        worker_threads: 1,
    }
}

fn records(sequences: &[(&str, &[u8])]) -> Vec<Record> {
    sequences.iter().map(|(name, seq)| Record { name: name.to_string(), seq: seq.to_vec() }).collect()
}

fn corpus(sequences: &[(&str, &[u8])], config: &Config) -> Maps {
    prepare_maps(&records(sequences), config).0
}

#[test]
fn two_sequences_in_one_text() {
    let maps = corpus(&[("x", b"ACGTA"), ("y", b"CCGGTT")], &config(false, false));
    assert_eq!(2, maps.num_ids());
    assert_eq!(maps.text.len(), 5 + 6 + 1 + 1 + 1);
    assert_eq!(maps.id2name_vec[0], "x");
    assert_eq!(maps.id2name_vec[1], "y");
    assert_eq!(maps.get_string(0).len(), 5);
    assert_eq!(maps.get_string(1).len(), 6);
    assert_eq!(maps.text, b"$ATGCA$TTGGCC#");
    assert_eq!(maps.get_string(0), b"ATGCA");
    assert_eq!(maps.get_string(1), b"TTGGCC");
    assert_eq!(maps.get_length(0), 5);
    assert_eq!(maps.get_length(1), 6);
    assert_eq!(maps.get_name_for(1), "y");
    assert_eq!(maps.indexes, vec![1, 7]);
}

#[test]
fn companions_follow_their_sequences() {
    let maps = corpus(&[("x", b"ACG"), ("y", b"TTGN")], &config(true, true));
    assert_eq!(maps.num_ids(), 4);
    assert_eq!(maps.text, b"$GCA$TGC$NGTT$AACN#");
    assert_eq!(maps.get_string(0), b"GCA");
    assert_eq!(maps.get_string(1), b"TGC");
    assert_eq!(maps.get_string(2), b"NGTT");
    assert_eq!(maps.get_string(3), b"AACN");
    assert_eq!(maps.get_name_for(0), "x");
    assert_eq!(maps.get_name_for(1), "x");
    assert_eq!(maps.get_name_for(2), "y");
    assert_eq!(maps.get_name_for(3), "y");
}

#[test]
fn unreadable_symbols_are_left_out_on_request() {
    let (maps, removed) = prepare_maps(&records(&[("x", b"ANNC"), ("y", b"NG"), ("z", b"T")]), &config(false, false));
    assert_eq!(removed, 3);
    assert_eq!(maps.text, b"$CA$G$T#");
    let (kept, none) = prepare_maps(&records(&[("x", b"ANNC")]), &config(false, true));
    assert_eq!(none, 0);
    assert_eq!(kept.text, b"$CNNA#");
}

#[test]
fn an_empty_input_gives_an_empty_corpus() {
    let (maps, removed) = prepare_maps(&Vec::new(), &config(true, true));
    assert_eq!(maps.num_ids(), 0);
    assert_eq!(maps.text, b"#");
    assert_eq!(removed, 0);
    let blank = corpus(&[("x", b""), ("y", b"AC")], &config(false, true));
    assert_eq!(blank.text, b"$$CA#");
    assert_eq!(blank.get_length(0), 0);
    assert_eq!(blank.get_length(1), 2);
}

#[test]
fn positions_find_their_sequences() {
    let maps = corpus(&[("x", b"ACGTA"), ("y", b"CCGGTT"), ("z", b"G")], &config(false, true));
    assert_eq!(maps.indexes, vec![1, 7, 14]);
    assert_eq!(maps.index_for(0), 1);
    assert_eq!(maps.index_for(2), 14);
    assert_eq!(maps.id_for(1), 0);
    assert_eq!(maps.id_for(7), 1);
    assert_eq!(maps.id_for(14), 2);
    assert_eq!(maps.find_id_at(7), Some(1));
    assert_eq!(maps.find_id_at(8), None);
    assert_eq!(maps.find_id_at(0), None);
    assert_eq!(maps.find_id_at(15), None);
    assert_eq!(maps.find_occurrence_containing(1), (0, 1));
    assert_eq!(maps.find_occurrence_containing(5), (0, 1));
    assert_eq!(maps.find_occurrence_containing(7), (1, 7));
    assert_eq!(maps.find_occurrence_containing(12), (1, 7));
    assert_eq!(maps.find_occurrence_containing(14), (2, 14));
}

#[test]
fn complements() {
    assert_eq!(complement_u8(b'A'), b'T');
    assert_eq!(complement_u8(b'C'), b'G');
    assert_eq!(complement_u8(b'G'), b'C');
    assert_eq!(complement_u8(b'T'), b'A');
    assert_eq!(complement_u8(b'N'), b'N');
}

#[test]
fn sequences_with_sentinels_cannot_be_stored() {
    assert!(is_storable(&b"ACGTN".to_vec(), true));
    assert!(is_storable(&b"".to_vec(), true));
    assert!(!is_storable(&b"AC$GT".to_vec(), false));
    assert!(!is_storable(&b"ACGT#".to_vec(), false));
    assert!(is_storable(&b"ACRT".to_vec(), false));
    assert!(!is_storable(&b"ACRT".to_vec(), true));
}

#[test]
fn alphabets() {
    assert_eq!(config(false, true).alphabet(), b"ACGNT");
    assert_eq!(config(false, false).alphabet(), b"ACGT");
}

#[test]
fn configurations_are_checked() {
    let good = config(false, true);
    assert_eq!(good.check(), Ok(()));
    let no_threshold = Config { thresh: 0, ..config(false, true) };
    assert_eq!(no_threshold.check(), Err(ConfigError::Threshold));
    let negative = Config { thresh: -3, ..config(false, true) };
    assert_eq!(negative.check(), Err(ConfigError::Threshold));
    let whole = Config { err_rate: ErrorRate { num: 1, den: 1 }, ..config(false, true) };
    assert_eq!(whole.check(), Err(ConfigError::ErrorRate));
    let undefined = Config { err_rate: ErrorRate { num: 0, den: 0 }, ..config(false, true) };
    assert_eq!(undefined.check(), Err(ConfigError::ErrorRate));
    let both = Config { thresh: 0, err_rate: ErrorRate { num: 2, den: 1 }, ..config(false, true) };
    assert_eq!(both.check(), Err(ConfigError::Threshold));
}
