use aspop_solver::modes::kucherov::KucherovMode;
use aspop_solver::modes::valimaki::ValimakiMode;
use aspop_solver::modes::valimaki2::Valimaki2Mode;
use aspop_solver::modes::{default_mode, get_mode, Mode};
use aspop_solver::rate::ErrorRate;
use aspop_solver::search::get_block_id_lookup;

fn rate(num: u32, den: u32) -> ErrorRate {
    ErrorRate::new(num, den).unwrap()
}

// An f32 between 0 and 1 is a multiple of 2^-30 as long as it is not tiny.
fn exact_rate(err_rate: f32) -> ErrorRate {
    let den: u32 = 1 << 30;
    let num = (err_rate as f64 * den as f64) as u32;
    assert_eq!(num as f64 / den as f64, err_rate as f64);
    ErrorRate::new(num, den).unwrap()
}

#[test]
fn filter_correct() {
    let mode = KucherovMode::new(2);
    let guaranteed_extra_blocks = mode.get_guaranteed_extra_blocks();
    for patt_len in 5..350 {
        let mut err_rate: f32 = 0.5;
        while err_rate >= 0.1 {
            for thresh in 4..(patt_len as f32 * 0.5) as i32 {
                let blocks_lengths = mode.get_block_lengths(patt_len, exact_rate(err_rate), thresh);
                assert!(!(blocks_lengths.contains(&0))); //no-char blocks would mess with the id lookup
                let mut block_id_lookup = get_block_id_lookup(&blocks_lengths);
                block_id_lookup.reverse();
                for pref_len in thresh..patt_len + 1 {
                    let pref_blocks = block_id_lookup[(pref_len - 1) as usize] + 1; //#blocks is block index + 1
                    let max_allowed_err = (pref_len as f32 * err_rate).floor() as i32;
                    if !(pref_blocks >= max_allowed_err + guaranteed_extra_blocks) {
                        // must allow K+1 or more
                        panic!(
                            "\nfilter not lenient enough for patt_len {} err_rate {} \
                            thresh {} pref_len {}.\nBlock lens is {:?}. pref in {} blocks, permitted {} errors.\n",
                            patt_len, err_rate, thresh, pref_len, &blocks_lengths, pref_blocks, max_allowed_err
                        );
                    }
                }
            }
            err_rate *= 0.8;
        }
    }
}

#[test]
fn balanced_blocks_by_hand() {
    // steps at 5, 7, 9; k = 3 + 2 - 1 = 4 blocks cover the first 4 symbols
    let mode = KucherovMode::new(2);
    assert_eq!(mode.get_block_lengths(10, rate(1, 2), 4), vec![1, 1, 1, 1, 2, 2, 2]);
    // no error allowed: k = 1 + 2 - 1 = 2, L = max(ceil(10 / 2), 11 - 4) = 7
    assert_eq!(mode.get_block_lengths(10, rate(0, 1), 4), vec![3, 7]);
    // a pattern below the threshold stays whole
    assert_eq!(mode.get_block_lengths(3, rate(1, 2), 4), vec![3]);
    // steps at 11 and 21; k = 2 + 2 - 1 = 3; L = max(ceil(10 / 3), 11 - 8) = 4; p = 3
    assert_eq!(mode.get_block_lengths(25, rate(1, 10), 8), vec![3, 3, 4, 10, 5]);
}

#[test]
fn balanced_blocks_with_a_longer_block() {
    // first step at 11; k = 2 + 3 - 1 = 4; L = max(ceil(10 / 4), 11 - 9) = 3;
    // 7 symbols for 3 blocks: two of 2 and one of 3
    let mode = KucherovMode::new(3);
    assert_eq!(mode.get_block_lengths(12, rate(1, 10), 9), vec![2, 2, 3, 3, 2]);
}

#[test]
fn balanced_blocks_can_come_out_empty() {
    // threshold 1 leaves the L block the whole first part
    let mode = KucherovMode::new(2);
    assert_eq!(mode.get_block_lengths(10, rate(0, 1), 1), vec![0, 10]);
}

#[test]
fn equal_blocks_by_hand() {
    let mode = ValimakiMode::new();
    // every length from 4 to 10 gives pieces of 2
    assert_eq!(mode.get_block_lengths(10, rate(1, 2), 4), vec![2, 2, 2, 2, 2]);
    // lengths 11 to 15 give the smallest piece: ceil(11 / 3) = 4
    assert_eq!(mode.get_block_lengths(25, rate(1, 10), 10), vec![4, 4, 4, 4, 4, 4, 1]);
    assert_eq!(mode.get_block_lengths(3, rate(1, 2), 4), vec![3]);
    let other = Valimaki2Mode::new();
    assert_eq!(other.get_block_lengths(25, rate(1, 10), 10), vec![4, 4, 4, 4, 4, 4, 1]);
}

#[test]
fn block_lengths_are_well_formed() {
    let rates = [rate(0, 1), rate(1, 50), rate(1, 10), rate(1, 3), rate(1, 2)];
    for patt_len in 1..120 {
        for e in rates.iter() {
            for thresh in 1..patt_len + 3 {
                let equal = ValimakiMode::new().get_block_lengths(patt_len, *e, thresh);
                assert_eq!(equal.iter().sum::<i32>(), patt_len);
                assert!(equal.iter().all(|b| *b > 0));
                let balanced = KucherovMode::new(2).get_block_lengths(patt_len, *e, thresh);
                assert_eq!(balanced.iter().sum::<i32>(), patt_len);
                assert!(balanced.iter().all(|b| *b >= 0));
            }
        }
    }
}

#[test]
fn equal_blocks_can_fall_short() {
    // blocks of 2 cover 10 symbols 5 times, but 5 errors are allowed
    let mode = ValimakiMode::new();
    let blocks = mode.get_block_lengths(10, rate(1, 2), 4);
    assert_eq!(blocks.len(), 5);
    assert_eq!(rate(1, 2).floor_mul(10), 5);
}

#[test]
fn filters_by_hand() {
    let balanced = KucherovMode::new(2);
    assert_eq!(balanced.filter_func(0, 7, 0), 0);
    assert_eq!(balanced.filter_func(3, 7, 0), 3);
    assert_eq!(balanced.filter_func(6, 7, 1), 5);
    assert_eq!(balanced.filter_func(7, 7, 0), 5);
    let equal = ValimakiMode::new();
    assert_eq!(equal.filter_func(0, 7, 0), 2);
    assert_eq!(equal.filter_func(0, 7, 1), 1);
    assert_eq!(equal.filter_func(3, 7, 2), 4);
    assert_eq!(Valimaki2Mode::new().filter_func(3, 7, 0), 5);
}

#[test]
fn filters_are_monotone() {
    let modes = [
        Mode::Kucherov(KucherovMode::new(2)),
        Mode::Valimaki(ValimakiMode::new()),
        Mode::Valimaki2(Valimaki2Mode::new()),
    ];
    for mode in modes.iter() {
        for blind in 0..3 {
            for completed in 0..9 {
                assert!(mode.filter_func(completed, 9, blind) <= mode.filter_func(completed + 1, 9, blind));
            }
        }
    }
}

#[test]
fn candidate_conditions_by_hand() {
    let balanced = KucherovMode::new(2);
    assert!(balanced.candidate_condition(8, 1, 8, 0));
    assert!(!balanced.candidate_condition(7, 1, 8, 0));
    assert!(!balanced.candidate_condition(8, 0, 8, 0));
    assert!(!balanced.candidate_condition(8, 1, 8, 1));
    assert!(balanced.candidate_condition(8, 2, 8, 1));
    let strict = KucherovMode::new(4);
    assert!(!strict.candidate_condition(8, 2, 8, 0));
    assert!(strict.candidate_condition(8, 3, 8, 0));
    let equal = ValimakiMode::new();
    assert!(equal.candidate_condition(8, 1, 8, 5));
    assert!(!equal.candidate_condition(7, 1, 8, 0));
    assert!(!equal.candidate_condition(8, 0, 8, 0));
    assert!(Valimaki2Mode::new().candidate_condition(8, 1, 8, 5));
}

#[test]
fn scheme_constants() {
    assert_eq!(KucherovMode::new(3).get_guaranteed_extra_blocks(), 3);
    assert_eq!(KucherovMode::new(3).get_fewest_suff_blocks(), 3);
    assert_eq!(ValimakiMode::new().get_guaranteed_extra_blocks(), 1);
    assert_eq!(ValimakiMode::new().get_fewest_suff_blocks(), 1);
    assert_eq!(Valimaki2Mode::new().get_guaranteed_extra_blocks(), 1);
    assert_eq!(Valimaki2Mode::new().get_fewest_suff_blocks(), 1);
    assert_eq!(default_mode().get_fewest_suff_blocks(), 2);
}

#[test]
fn block_id_lookup_counts_from_the_end() {
    assert_eq!(get_block_id_lookup(&[3, 2, 2]), vec![2, 2, 1, 1, 0, 0, 0]);
    assert_eq!(get_block_id_lookup(&[0, 2, 0, 1]), vec![3, 1, 1]);
    assert_eq!(get_block_id_lookup(&[]), Vec::<i32>::new());
}

#[test]
fn schemes_by_name() {
    assert!(matches!(get_mode("valimaki"), Some(Mode::Valimaki(_))));
    assert!(matches!(get_mode("valimaki_7"), Some(Mode::Valimaki(_))));
    match get_mode("kucherov_2") {
        Some(Mode::Kucherov(m)) => assert_eq!(m.s_param, 2),
        _ => panic!("kucherov_2 names the balanced-block scheme"),
    }
    match get_mode("kucherov_013_x") {
        Some(Mode::Kucherov(m)) => assert_eq!(m.s_param, 13),
        _ => panic!("the first parameter counts"),
    }
    match get_mode("kucherov_2147483647") {
        Some(Mode::Kucherov(m)) => assert_eq!(m.s_param, 2147483647),
        _ => panic!("the largest parameter"),
    }
    assert!(get_mode("kucherov_2147483648").is_none());
    assert!(get_mode("kucherov").is_none());
    assert!(get_mode("kucherov_").is_none());
    assert!(get_mode("kucherov_0").is_none());
    assert!(get_mode("kucherov_two").is_none());
    assert!(get_mode("kucherov_-2").is_none());
    assert!(get_mode("").is_none());
    assert!(get_mode("valimaki2").is_none());
    assert!(get_mode("Valimaki").is_none());
    match default_mode() {
        Mode::Kucherov(m) => assert_eq!(m.s_param, 2),
        _ => panic!("the default is the balanced-block scheme"),
    }
}

#[test]
fn rates_round_exactly() {
    let e = rate(2, 100);
    assert_eq!(e.floor_mul(49), 0);
    assert_eq!(e.floor_mul(50), 1);
    assert_eq!(e.ceil_mul(50), 1);
    assert_eq!(e.ceil_mul(51), 2);
    assert_eq!(e.ceil_mul(0), 0);
    let f = rate(1, 5);
    assert_eq!(f.stretch(8), 10);
    assert_eq!(f.stretch(9), 11);
    assert_eq!(f.shrink(10), 8);
    assert_eq!(f.shrink(9), 8);
    assert_eq!(rate(0, 1).stretch(7), 7);
    assert_eq!(rate(0, 1).shrink(7), 7);
    assert_eq!(ErrorRate::zero().floor_mul(1000), 0);
}

#[test]
fn rates_outside_the_range_are_refused() {
    assert!(ErrorRate::new(1, 0).is_none());
    assert!(ErrorRate::new(5, 5).is_none());
    assert!(ErrorRate::new(6, 5).is_none());
    assert!(ErrorRate::new(0, 1).is_some());
    assert!(ErrorRate::new(4, 5).is_some());
}

#[test]
fn rates_from_decimal_text() {
    assert_eq!(ErrorRate::from_decimal("0.02"), Some(ErrorRate { num: 2, den: 100 }));
    assert_eq!(ErrorRate::from_decimal("0.5"), Some(ErrorRate { num: 5, den: 10 }));
    assert_eq!(ErrorRate::from_decimal("0"), Some(ErrorRate { num: 0, den: 1 }));
    assert_eq!(ErrorRate::from_decimal("0.0"), Some(ErrorRate { num: 0, den: 10 }));
    assert_eq!(ErrorRate::from_decimal("00.25"), Some(ErrorRate { num: 25, den: 100 }));
    assert_eq!(
        ErrorRate::from_decimal("0.999999999"),
        Some(ErrorRate { num: 999999999, den: 1000000000 })
    );
    assert_eq!(ErrorRate::from_decimal("0.02").unwrap().floor_mul(50), 1);
    assert_eq!(ErrorRate::from_decimal("1"), None);
    assert_eq!(ErrorRate::from_decimal("1.0"), None);
    assert_eq!(ErrorRate::from_decimal("10.5"), None);
    assert_eq!(ErrorRate::from_decimal(".5"), None);
    assert_eq!(ErrorRate::from_decimal("0."), None);
    assert_eq!(ErrorRate::from_decimal(""), None);
    assert_eq!(ErrorRate::from_decimal("0.1234567891"), None);
    assert_eq!(ErrorRate::from_decimal("0.1x"), None);
    assert_eq!(ErrorRate::from_decimal("0.1.2"), None);
    assert_eq!(ErrorRate::from_decimal("-0.1"), None);
    assert_eq!(ErrorRate::from_decimal("0,1"), None);
}
