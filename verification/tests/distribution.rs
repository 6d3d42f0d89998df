use dice::{DiceError, Distribution};

fn two_dice() -> Vec<u32> {
    let mut outcomes = Vec::new();
    for a in 1..=6u32 {
        for b in 1..=6u32 {
            outcomes.push(a + b);
        }
    }
    outcomes
}

fn counts(table: &dice::Table) -> Vec<u32> {
    table.to_permutations().into_iter().map(|(_, count)| count).collect()
}

#[test]
fn it_works() {
    let dist = Distribution::new(&[1, 2, 3, 4, 5, 6]).unwrap();

    assert!(dist.min() == 1);
    assert!(dist.max() == 6);

    println!("Exact: {:?}", dist.exactly());
    println!("At least: {:?}", dist.at_least());
    println!("At most: {:?}", dist.at_most());

    assert!(true);
}

#[test]
fn one_die_has_one_permutation_for_each_face() {
    let dist = Distribution::new(&[1, 2, 3, 4, 5, 6]).unwrap();
    assert_eq!(dist.min(), 1);
    assert_eq!(dist.max(), 6);
    assert_eq!(dist.total_permutations(), 6);
    for x in 1..=6usize {
        assert_eq!(dist.exactly().permutations_of(x), Ok(1));
    }
    assert_eq!(dist.at_least().permutations_of(1), Ok(6));
    assert_eq!(dist.at_least().permutations_of(6), Ok(1));
    assert_eq!(dist.at_most().permutations_of(1), Ok(1));
    assert_eq!(dist.at_most().permutations_of(6), Ok(6));
}

#[test]
fn one_die_gives_each_face_a_sixth() {
    let dist = Distribution::new(&[1, 2, 3, 4, 5, 6]).unwrap();
    let exactly = dist.exactly();
    for x in 1..=6usize {
        let chance = exactly.chance_of(x).unwrap();
        assert_eq!(chance.permutations, 1);
        assert_eq!(chance.total, 6);
        let value = chance.permutations as f32 / chance.total as f32;
        assert!((value - 0.1667).abs() < 0.0001);
    }
}

#[test]
fn equal_outcomes_fill_a_single_bucket() {
    let dist = Distribution::new(&[2, 2, 2]).unwrap();
    assert_eq!(dist.min(), 2);
    assert_eq!(dist.max(), 2);
    assert_eq!(dist.total_combinations(), 0);
    assert_eq!(dist.total_permutations(), 3);
    assert_eq!(dist.exactly().to_permutations(), vec![(2, 3)]);
    assert_eq!(dist.at_least().to_permutations(), vec![(2, 3)]);
    assert_eq!(dist.at_most().to_permutations(), vec![(2, 3)]);
    let chance = dist.exactly().chance_of(2).unwrap();
    assert_eq!(chance.permutations as f32 / chance.total as f32, 1.0);
}

#[test]
fn no_outcomes_are_rejected() {
    assert_eq!(Distribution::new(&[]).unwrap_err(), DiceError::EmptyInput);
}

#[test]
fn a_single_outcome_is_enough() {
    let dist = Distribution::new(&[0]).unwrap();
    assert_eq!(dist.min(), 0);
    assert_eq!(dist.max(), 0);
    assert_eq!(dist.total_permutations(), 1);
    assert_eq!(dist.exactly().to_permutations(), vec![(0, 1)]);
}

#[test]
fn the_largest_outcome_is_counted() {
    let dist = Distribution::new(&[u32::MAX, u32::MAX - 1, u32::MAX]).unwrap();
    assert_eq!(dist.min(), u32::MAX - 1);
    assert_eq!(dist.max(), u32::MAX);
    assert_eq!(dist.total_combinations(), 1);
    assert_eq!(
        dist.exactly().to_permutations(),
        vec![(u32::MAX as usize - 1, 1), (u32::MAX as usize, 2)]
    );
}

#[test]
fn more_outcomes_than_a_counter_holds_overflow() {
    assert_eq!(Distribution::histogram_len(1, 6, usize::MAX), Err(DiceError::Overflow));
    assert_eq!(
        Distribution::histogram_len(1, 6, u32::MAX as usize + 1),
        Err(DiceError::Overflow)
    );
}

#[test]
fn histogram_has_one_entry_for_each_value() {
    assert_eq!(Distribution::histogram_len(1, 6, 6), Ok(6));
    assert_eq!(Distribution::histogram_len(7, 7, 1), Ok(1));
    assert_eq!(Distribution::histogram_len(2, 12, u32::MAX as usize), Ok(11));
}

#[test]
fn both_names_of_the_total_agree() {
    let dist = Distribution::new(&two_dice()).unwrap();
    assert_eq!(dist.total_permutations(), 36);
    assert_eq!(dist.possible_permutations(), 36);
}

#[test]
fn combinations_are_the_steps_between_the_extremes() {
    let dist = Distribution::new(&[1, 2, 3, 4, 5, 6]).unwrap();
    assert_eq!(dist.total_combinations(), 5);
    let dist = Distribution::new(&two_dice()).unwrap();
    assert_eq!(dist.total_combinations(), 10);
}

#[test]
fn two_dice_histograms() {
    let dist = Distribution::new(&two_dice()).unwrap();
    assert_eq!(dist.min(), 2);
    assert_eq!(dist.max(), 12);
    assert_eq!(counts(&dist.exactly()), vec![1, 2, 3, 4, 5, 6, 5, 4, 3, 2, 1]);
    assert_eq!(counts(&dist.at_least()), vec![36, 35, 33, 30, 26, 21, 15, 10, 6, 3, 1]);
    assert_eq!(counts(&dist.at_most()), vec![1, 3, 6, 10, 15, 21, 26, 30, 33, 35, 36]);
}

#[test]
fn order_and_gaps_of_the_outcomes() {
    let dist = Distribution::new(&[5, 1, 5, 3]).unwrap();
    assert_eq!(dist.min(), 1);
    assert_eq!(dist.max(), 5);
    assert_eq!(dist.total_permutations(), 4);
    assert_eq!(
        dist.exactly().to_permutations(),
        vec![(1, 1), (2, 0), (3, 1), (4, 0), (5, 2)]
    );
    assert_eq!(counts(&dist.at_least()), vec![4, 3, 3, 2, 2]);
    assert_eq!(counts(&dist.at_most()), vec![1, 1, 2, 2, 4]);
    let reordered = Distribution::new(&[1, 3, 5, 5]).unwrap();
    assert_eq!(reordered.exactly().to_permutations(), dist.exactly().to_permutations());
}

#[test]
fn exact_counts_add_up_to_the_total() {
    let outcomes = two_dice();
    let dist = Distribution::new(&outcomes).unwrap();
    let sum: u32 = counts(&dist.exactly()).iter().sum();
    assert_eq!(sum, dist.total_permutations());
    assert_eq!(sum as usize, outcomes.len());
}

#[test]
fn cumulative_counts_at_the_extremes() {
    let dist = Distribution::new(&two_dice()).unwrap();
    let (min, max) = (dist.min() as usize, dist.max() as usize);
    let total = dist.total_permutations();
    assert_eq!(dist.at_least().permutations_of(min), Ok(total));
    assert_eq!(dist.at_least().permutations_of(max), dist.exactly().permutations_of(max));
    assert_eq!(dist.at_most().permutations_of(max), Ok(total));
    assert_eq!(dist.at_most().permutations_of(min), dist.exactly().permutations_of(min));
}

#[test]
fn cumulative_counts_are_monotonic() {
    let dist = Distribution::new(&[5, 1, 5, 3, 9, 9, 2]).unwrap();
    let at_least = counts(&dist.at_least());
    let at_most = counts(&dist.at_most());
    for i in 1..at_least.len() {
        assert!(at_least[i - 1] >= at_least[i]);
        assert!(at_most[i - 1] <= at_most[i]);
    }
}

#[test]
fn chances_of_a_distribution_are_probabilities() {
    let dist = Distribution::new(&two_dice()).unwrap();
    for table in [dist.exactly(), dist.at_least(), dist.at_most()] {
        for x in 2..=12usize {
            let chance = table.chance_of(x).unwrap();
            assert_eq!(chance.permutations, table.permutations_of(x).unwrap());
            assert_eq!(chance.total, dist.total_permutations());
            assert!(chance.total > 0);
            assert!(chance.permutations <= chance.total);
        }
    }
    assert_eq!(dist.exactly().chance_of(7).unwrap().permutations, 6);
    assert_eq!(dist.at_least().chance_of(2).unwrap().permutations, 36);
}

#[test]
fn queries_beside_the_range_are_rejected() {
    let dist = Distribution::new(&two_dice()).unwrap();
    let (min, max) = (dist.min() as usize, dist.max() as usize);
    for table in [dist.exactly(), dist.at_least(), dist.at_most()] {
        assert_eq!(table.permutations_of(min - 1), Err(DiceError::OutOfRange));
        assert_eq!(table.permutations_of(max + 1), Err(DiceError::OutOfRange));
        assert_eq!(table.chance_of(min - 1), Err(DiceError::OutOfRange));
        assert_eq!(table.chance_of(max + 1), Err(DiceError::OutOfRange));
        assert!(table.permutations_of(min).is_ok());
        assert!(table.permutations_of(max).is_ok());
    }
}

#[test]
fn three_twenty_sided_dice() {
    let a = [1u32, 2, 3, 4, 5, 6, 7, 8, 9, 10, 11, 12, 13, 14, 15, 16, 17, 18, 19, 20];

    let mut v = Vec::with_capacity(a.len() * a.len() * a.len());

    for i in &a {
        for j in &a {
            for k in &a {
                v.push(i + j + k);
            }
        }
    }

    let dist = Distribution::new(&v).unwrap();

    assert_eq!(dist.min(), 3);
    assert_eq!(dist.max(), 60);
    assert_eq!(dist.total_permutations(), 8000);
    assert_eq!(dist.exactly().permutations_of(3), Ok(1));
    assert_eq!(dist.exactly().permutations_of(4), Ok(3));
    assert_eq!(dist.exactly().permutations_of(60), Ok(1));
    assert_eq!(dist.at_least().permutations_of(3), Ok(8000));
    assert_eq!(dist.at_least().permutations_of(59), Ok(4));
    assert_eq!(dist.at_most().permutations_of(4), Ok(4));
    assert_eq!(dist.at_most().permutations_of(60), Ok(8000));
    assert_eq!(dist.at_most().chance_of(2), Err(DiceError::OutOfRange));
}

#[test]
fn tables_are_snapshots() {
    let dist = Distribution::new(&[1, 2, 2]).unwrap();
    let first = dist.exactly();
    let second = dist.exactly();
    drop(first);
    assert_eq!(second.to_permutations(), vec![(1, 1), (2, 2)]);
    assert_eq!(dist.exactly().to_permutations(), vec![(1, 1), (2, 2)]);
}

#[test]
fn outcomes_of_one_die_sum_to_twenty_one() {
    let dist = Distribution::new(&[1, 2, 3, 4, 5, 6]).unwrap();
    assert_eq!(dist.outcome_sum(), 21);
    assert_eq!(dist.outcome_square_sum(), 91);
    let mean = dist.outcome_sum() as f64 / dist.total_permutations() as f64;
    assert_eq!(mean, 3.5);
}

#[test]
fn outcome_sums_weigh_each_value_by_its_count() {
    let outcomes = two_dice();
    let dist = Distribution::new(&outcomes).unwrap();
    assert_eq!(dist.outcome_sum(), 252);
    assert_eq!(dist.outcome_square_sum(), 1974);
    assert_eq!(dist.outcome_sum(), outcomes.iter().map(|&o| o as u64).sum::<u64>());
    assert_eq!(
        dist.outcome_square_sum(),
        outcomes.iter().map(|&o| (o as u128) * (o as u128)).sum::<u128>()
    );
    let dist = Distribution::new(&[5, 1, 5, 3]).unwrap();
    assert_eq!(dist.outcome_sum(), 14);
    assert_eq!(dist.outcome_square_sum(), 60);
}

#[test]
fn outcome_sums_of_the_largest_outcomes() {
    let dist = Distribution::new(&[u32::MAX, u32::MAX, u32::MAX - 1]).unwrap();
    let max = u32::MAX as u128;
    assert_eq!(dist.outcome_sum(), 3 * (u32::MAX as u64) - 1);
    assert_eq!(dist.outcome_square_sum(), 2 * max * max + (max - 1) * (max - 1));
}

#[test]
fn scaled_variance_of_one_die() {
    let dist = Distribution::new(&[1, 2, 3, 4, 5, 6]).unwrap();
    assert_eq!(dist.scaled_variance(), 105);
    let std_dev = (dist.scaled_variance() as f64).sqrt() / dist.total_permutations() as f64;
    assert!((std_dev - 1.707825).abs() < 0.000001);
}

#[test]
fn scaled_variance_of_two_dice() {
    let dist = Distribution::new(&two_dice()).unwrap();
    assert_eq!(dist.scaled_variance(), 7560);
    let variance = dist.scaled_variance() as f64 / 36.0 / 36.0;
    assert!((variance - 35.0 / 6.0).abs() < 0.000001);
}

#[test]
fn equal_outcomes_have_no_variance() {
    let dist = Distribution::new(&[2, 2, 2]).unwrap();
    assert_eq!(dist.outcome_sum(), 6);
    assert_eq!(dist.outcome_square_sum(), 12);
    assert_eq!(dist.scaled_variance(), 0);
}

#[test]
fn scaled_variance_of_the_largest_outcomes() {
    let dist = Distribution::new(&[u32::MAX, u32::MAX, u32::MAX - 1]).unwrap();
    assert_eq!(dist.scaled_variance(), 2);
}
