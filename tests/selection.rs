use digit_bin_index::index::DEFAULT_PRECISION;
use digit_bin_index::weight::{bin_units, get_digit_at};
use digit_bin_index::{DigitBinIndex, Weight};
use roaring::RoaringBitmap;
use std::collections::HashSet;

fn w(num: i64, scale: u32) -> Weight {
    Weight::new(num, scale)
}

fn sample_index() -> DigitBinIndex {
    let mut index = DigitBinIndex::with_precision(3);
    assert!(index.add(1, w(85, 3)));
    assert!(index.add(2, w(205, 3)));
    assert!(index.add(3, w(346, 3)));
    assert!(index.add(4, w(364, 3)));
    index
}

#[test]
fn test_select_and_remove() {
    let mut index = DigitBinIndex::with_precision(3);
    index.add(1, w(85, 3));
    index.add(2, w(205, 3));
    index.add(3, w(346, 3));
    index.add(4, w(364, 3));
    println!("Initial state: {} individuals, total weight = {:?}", index.count(), index.total_weight());
    if let Some((id, weight)) = index.select_and_remove() {
        println!("Selected ID: {} with weight: {:?}", id, weight);
    }
    println!("Intermediate state: {} individuals, total weight = {:?}", index.count(), index.total_weight());
    if let Some((id, weight)) = index.select_and_remove() {
        println!("Selected ID: {} with weight: {:?}", id, weight);
    }
    println!("Intermediate state: {} individuals, total weight = {:?}", index.count(), index.total_weight());
    if let Some((id, weight)) = index.select_and_remove() {
        println!("Selected ID: {} with weight: {:?}", id, weight);
    }
    println!("Final state: {} individuals, total weight = {:?}", index.count(), index.total_weight());
    assert_eq!(index.count(), 1);
}

#[test]
fn test_wallenius_distribution_is_correct() {
    const ITEMS_PER_GROUP: u32 = 1000;
    const TOTAL_ITEMS: u32 = ITEMS_PER_GROUP * 2;
    const NUM_DRAWS: u32 = TOTAL_ITEMS / 2;

    let low_risk_weight = w(1, 1); // 0.1
    let high_risk_weight = w(2, 1); // 0.2

    const NUM_SIMULATIONS: u32 = 100;
    let mut total_high_risk_selected = 0;

    for _ in 0..NUM_SIMULATIONS {
        let mut index = DigitBinIndex::with_precision(3);
        for i in 0..ITEMS_PER_GROUP {
            index.add(i, low_risk_weight);
        }
        for i in ITEMS_PER_GROUP..TOTAL_ITEMS {
            index.add(i, high_risk_weight);
        }

        let mut high_risk_in_this_run = 0;
        for _ in 0..NUM_DRAWS {
            if let Some((selected_id, _)) = index.select_and_remove() {
                if selected_id >= ITEMS_PER_GROUP {
                    high_risk_in_this_run += 1;
                }
            }
        }
        total_high_risk_selected += high_risk_in_this_run;
    }

    let avg_high_risk = total_high_risk_selected as f64 / NUM_SIMULATIONS as f64;
    let uniform_mean = NUM_DRAWS as f64 * 0.5;
    let fishers_mean = NUM_DRAWS as f64 * (2.0 / 3.0);

    assert!(
        avg_high_risk > uniform_mean,
        "Test failed: Result {:.2} was not biased towards higher weights (uniform mean is {:.2})",
        avg_high_risk,
        uniform_mean
    );
    assert!(
        avg_high_risk < fishers_mean,
        "Test failed: Result {:.2} showed too much bias. It should be less than the Fisher's mean of {:.2} due to the Wallenius effect.",
        avg_high_risk,
        fishers_mean
    );
    println!(
        "Distribution test passed: Got an average of {:.2} high-risk selections.",
        avg_high_risk
    );
}

#[test]
fn test_fisher_distribution_is_correct() {
    const ITEMS_PER_GROUP: u32 = 1000;
    const TOTAL_ITEMS: u32 = ITEMS_PER_GROUP * 2;
    const NUM_DRAWS: u32 = TOTAL_ITEMS / 2;

    let low_risk_weight = w(1, 1);
    let high_risk_weight = w(2, 1);

    const NUM_SIMULATIONS: u32 = 100;
    let mut total_high_risk_selected = 0;

    for _ in 0..NUM_SIMULATIONS {
        let mut index = DigitBinIndex::with_precision(3);
        for i in 0..ITEMS_PER_GROUP {
            index.add(i, low_risk_weight);
        }
        for i in ITEMS_PER_GROUP..TOTAL_ITEMS {
            index.add(i, high_risk_weight);
        }
        if let Some(selected_ids) = index.select_many_and_remove(NUM_DRAWS) {
            let high_risk_in_this_run =
                selected_ids.iter().filter(|&&(id, _)| id >= ITEMS_PER_GROUP).count();
            total_high_risk_selected += high_risk_in_this_run as u32;
        }
    }

    let avg_high_risk = total_high_risk_selected as f64 / NUM_SIMULATIONS as f64;
    let fishers_mean = NUM_DRAWS as f64 * (2.0 / 3.0);
    let tolerance = fishers_mean * 0.02;

    assert!(
        (avg_high_risk - fishers_mean).abs() < tolerance,
        "Fisher's test failed: Result {:.2} was not close to the expected mean of {:.2}",
        avg_high_risk,
        fishers_mean
    );
    println!(
        "Fisher's test passed: Got avg {:.2} high-risk selections (expected ~{:.2}).",
        avg_high_risk, fishers_mean
    );
}

#[test]
fn extra_digits_round_to_the_precision() {
    let mut index = DigitBinIndex::with_precision(3);
    assert!(index.add(7, w(12345, 5)));
    assert_eq!(index.total_weight(), w(123, 3));
    assert_eq!(bin_units(w(12345, 5), 3), Some(123));
}

#[test]
fn a_dropped_five_rounds_away_from_zero() {
    assert_eq!(bin_units(w(1235, 4), 3), Some(124));
    assert_eq!(bin_units(w(1234, 4), 3), Some(123));
    assert_eq!(bin_units(w(12, 2), 3), Some(120));
    assert_eq!(bin_units(w(543, 3), 5), Some(54300));
}

#[test]
fn weights_that_bin_outside_the_digits_are_refused() {
    let mut index = DigitBinIndex::with_precision(3);
    assert!(!index.add(1, w(4, 4))); // 0.0004 bins to 0
    assert!(!index.add(2, w(0, 0)));
    assert!(!index.add(3, w(-5, 1)));
    assert!(!index.add(4, w(15, 1))); // 1.5
    assert!(!index.add(5, w(9996, 4))); // rounds up to 1.000
    assert_eq!(index.count(), 0);
    assert_eq!(index.total_weight(), w(0, 3));
    assert!(index.add(6, w(5, 4))); // 0.0005 bins to 0.001
    assert_eq!(index.total_weight(), w(1, 3));
}

#[test]
fn totals_follow_adds_and_removes() {
    let mut index = sample_index();
    assert_eq!(index.count(), 4);
    assert_eq!(index.total_weight(), w(1000, 3));
    assert!(index.remove(3, w(346, 3)));
    assert_eq!(index.count(), 3);
    assert_eq!(index.total_weight(), w(654, 3));
}

#[test]
fn add_then_remove_restores_the_totals() {
    let mut index = sample_index();
    let count = index.count();
    let total = index.total_weight();
    assert!(index.add(9, w(77777, 5)));
    assert_eq!(index.total_weight(), w(1778, 3));
    assert!(index.remove(9, w(778, 3)));
    assert_eq!(index.count(), count);
    assert_eq!(index.total_weight(), total);
}

#[test]
fn remove_with_the_wrong_weight_changes_nothing() {
    let mut index = sample_index();
    assert!(!index.remove(3, w(345, 3)));
    assert!(!index.remove(8, w(346, 3)));
    assert!(!index.remove(3, w(-346, 3)));
    assert_eq!(index.count(), 4);
    assert!(index.remove(3, w(3456, 4))); // bins to 0.346
    assert!(!index.remove(3, w(346, 3)));
    assert_eq!(index.count(), 3);
}

#[test]
fn digits_come_from_the_mantissa() {
    let weight = w(543, 3);
    assert_eq!(get_digit_at(weight, 1), 5);
    assert_eq!(get_digit_at(weight, 2), 4);
    assert_eq!(get_digit_at(weight, 3), 3);
    assert_eq!(get_digit_at(weight, 4), 0);
    let digits: usize = (1..=3).map(|p| get_digit_at(weight, p) * 10usize.pow(3 - p as u32)).sum();
    assert_eq!(digits, 543);
    assert_eq!(get_digit_at(w(-72, 2), 2), 2);
}

#[test]
fn draws_fall_in_bins_laid_end_to_end() {
    let index = sample_index();
    // bins 0.085, 0.205, 0.346, 0.364 cover draws [0,85), [85,290), [290,636), [636,1000)
    assert_eq!(index.select_at(0, 0), Some((1, w(85, 3))));
    assert_eq!(index.select_at(84, 0), Some((1, w(85, 3))));
    assert_eq!(index.select_at(85, 0), Some((2, w(205, 3))));
    assert_eq!(index.select_at(289, 0), Some((2, w(205, 3))));
    assert_eq!(index.select_at(290, 0), Some((3, w(346, 3))));
    assert_eq!(index.select_at(636, 0), Some((4, w(364, 3))));
    assert_eq!(index.select_at(999, 0), Some((4, w(364, 3))));
    assert_eq!(index.select_at(1000, 0), None);
    assert_eq!(index.select_at(0, 1), None);
}

#[test]
fn the_pick_chooses_within_a_bin_by_rank() {
    let mut index = DigitBinIndex::with_precision(2);
    assert!(index.add(30, w(5, 1)));
    assert!(index.add(10, w(5, 1)));
    assert!(index.add(20, w(50, 2)));
    assert!(index.add(40, w(25, 2)));
    assert_eq!(index.select_at(0, 0), Some((40, w(25, 2))));
    assert_eq!(index.select_at(25, 0), Some((10, w(50, 2))));
    assert_eq!(index.select_at(25, 1), Some((20, w(50, 2))));
    assert_eq!(index.select_at(174, 2), Some((30, w(50, 2))));
    assert_eq!(index.select_at(174, 3), None);
    assert_eq!(index.select_at(175, 0), None);
}

#[test]
fn unique_draws_skip_selected_ids() {
    let mut index = DigitBinIndex::with_precision(2);
    assert!(index.add(30, w(5, 1)));
    assert!(index.add(10, w(5, 1)));
    assert!(index.add(40, w(25, 2)));
    let mut selected = RoaringBitmap::new();
    assert_eq!(index.select_unique_at(30, &selected), Some((10, w(50, 2))));
    selected.insert(10);
    assert_eq!(index.select_unique_at(30, &selected), Some((30, w(50, 2))));
    selected.insert(30);
    assert_eq!(index.select_unique_at(30, &selected), None);
    assert_eq!(index.select_unique_at(3, &selected), Some((40, w(25, 2))));
    assert_eq!(index.select_unique_at(125, &selected), None);
}

#[test]
fn an_empty_index_selects_nothing() {
    let mut index = DigitBinIndex::new();
    assert_eq!(index.select(), None);
    assert_eq!(index.select_and_remove(), None);
    assert_eq!(index.select_many(0), Some(vec![]));
    assert_eq!(index.select_many(1), None);
    assert_eq!(index.select_many_and_remove(1), None);
    assert_eq!(index.count(), 0);
}

#[test]
fn asking_for_more_than_the_population_gives_none() {
    let mut index = sample_index();
    assert_eq!(index.select_many(5), None);
    assert_eq!(index.select_many_and_remove(5), None);
    assert_eq!(index.count(), 4);
    assert_eq!(index.select_many(0), Some(vec![]));
}

#[test]
fn select_many_returns_distinct_present_ids() {
    let index = sample_index();
    for k in 1..=4 {
        let picks = index.select_many(k).expect("enough individuals");
        assert_eq!(picks.len(), k as usize);
        let ids: HashSet<u32> = picks.iter().map(|&(id, _)| id).collect();
        assert_eq!(ids.len(), k as usize);
        for (id, weight) in picks {
            let expected = match id {
                1 => w(85, 3),
                2 => w(205, 3),
                3 => w(346, 3),
                4 => w(364, 3),
                _ => panic!("unknown id {}", id),
            };
            assert_eq!(weight, expected);
        }
    }
    assert_eq!(index.count(), 4);
}

#[test]
fn select_many_and_remove_takes_all_picks_out() {
    let mut index = sample_index();
    let picks = index.select_many_and_remove(3).expect("enough individuals");
    assert_eq!(picks.len(), 3);
    assert_eq!(index.count(), 1);
    let removed: i128 = picks.iter().map(|(_, weight)| weight.mantissa).sum();
    assert_eq!(index.total_weight(), w(1000 - removed as i64, 3));
    let last = index.select_and_remove().expect("one left");
    assert!(!picks.iter().any(|&(id, _)| id == last.0));
    assert_eq!(index.count(), 0);
    assert_eq!(index.total_weight(), w(0, 3));
}

#[test]
fn select_reports_a_present_individual_with_its_bin() {
    let index = sample_index();
    for _ in 0..50 {
        let (id, weight) = index.select().expect("non-empty");
        let expected = match id {
            1 => w(85, 3),
            2 => w(205, 3),
            3 => w(346, 3),
            4 => w(364, 3),
            _ => panic!("unknown id {}", id),
        };
        assert_eq!(weight, expected);
    }
}

#[test]
fn select_and_remove_drains_the_index() {
    let mut index = sample_index();
    let mut seen = HashSet::new();
    while let Some((id, _)) = index.select_and_remove() {
        assert!(seen.insert(id));
    }
    assert_eq!(seen.len(), 4);
    assert_eq!(index.count(), 0);
    assert_eq!(index.total_weight(), w(0, 3));
}

#[test]
fn default_and_new_use_precision_three() {
    let index = DigitBinIndex::default();
    assert_eq!(index.precision, DEFAULT_PRECISION);
    assert_eq!(DigitBinIndex::new().precision, 3);
    assert_eq!(index.total_weight(), w(0, 3));
}

#[test]
fn a_higher_precision_keeps_more_digits() {
    let mut index = DigitBinIndex::with_precision(5);
    assert!(index.add(201, w(543, 3)));
    assert!(index.add(202, w(12, 2)));
    assert!(index.add(203, w(12345, 5)));
    assert_eq!(index.total_weight(), w(78645, 5));
    assert_eq!(index.select_at(54299, 0), Some((201, w(54300, 5))));
    assert_eq!(index.select_at(0, 0), Some((202, w(12000, 5))));
    assert_eq!(index.select_at(12000, 0), Some((203, w(12345, 5))));
}

#[test]
fn select_many_cannot_fail_when_every_bin_is_large_enough() {
    let mut index = DigitBinIndex::with_precision(3);
    for id in 0..6 {
        assert!(index.add(id, w(1, 1)));
    }
    for id in 6..12 {
        assert!(index.add(id, w(2, 1)));
    }
    for _ in 0..20 {
        let picks = index.select_many(6).expect("every bin holds six ids");
        let ids: HashSet<u32> = picks.iter().map(|&(id, _)| id).collect();
        assert_eq!(ids.len(), 6);
        assert!(index.select_many(1).is_some());
    }
    assert_eq!(index.count(), 12);
}

#[test]
fn a_missed_remove_keeps_the_tree_as_it_was() {
    let mut index = sample_index();
    let before = format!("{:?}", index);
    assert!(!index.remove(2, w(85, 3)));
    assert!(!index.remove(99, w(205, 3)));
    assert_eq!(format!("{:?}", index), before);
}

#[test]
fn emptied_bins_stay_in_the_tree() {
    let mut index = sample_index();
    assert!(index.remove(1, w(85, 3)));
    assert_eq!(index.count(), 3);
    assert!(index.add(1, w(85, 3)));
    assert_eq!(index.select_at(0, 0), Some((1, w(85, 3))));
    assert!(index.remove(1, w(85, 3)));
    assert_eq!(index.select_at(0, 0), Some((2, w(205, 3))));
}
