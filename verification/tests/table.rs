use dice::{Chance, DiceError, Table};

#[test]
fn table_looks_counts_up_by_outcome() {
    let table = Table::new(3, 10, vec![1, 2, 7]);
    assert_eq!(table.permutations_of(3), Ok(1));
    assert_eq!(table.permutations_of(4), Ok(2));
    assert_eq!(table.permutations_of(5), Ok(7));
}

#[test]
fn table_rejects_outcomes_it_does_not_hold() {
    let table = Table::new(3, 10, vec![1, 2, 7]);
    assert_eq!(table.permutations_of(2), Err(DiceError::OutOfRange));
    assert_eq!(table.permutations_of(6), Err(DiceError::OutOfRange));
    assert_eq!(table.permutations_of(0), Err(DiceError::OutOfRange));
    assert_eq!(table.permutations_of(usize::MAX), Err(DiceError::OutOfRange));
    assert_eq!(table.chance_of(2), Err(DiceError::OutOfRange));
    assert_eq!(table.chance_of(6), Err(DiceError::OutOfRange));
}

#[test]
fn table_measures_chances_against_its_norm() {
    let table = Table::new(3, 10, vec![1, 2, 7]);
    assert_eq!(table.chance_of(4), Ok(Chance { permutations: 2, total: 10 }));
    assert_eq!(table.chance_of(5), Ok(Chance { permutations: 7, total: 10 }));
    let chance = table.chance_of(5).unwrap();
    assert_eq!(chance.permutations as f32 / chance.total as f32, 0.7);
}

#[test]
fn table_lists_outcomes_in_ascending_order() {
    let table = Table::new(3, 10, vec![1, 2, 7]);
    assert_eq!(table.to_permutations(), vec![(3, 1), (4, 2), (5, 7)]);
    assert_eq!(
        table.to_chances(),
        vec![
            (3, Chance { permutations: 1, total: 10 }),
            (4, Chance { permutations: 2, total: 10 }),
            (5, Chance { permutations: 7, total: 10 }),
        ]
    );
}

#[test]
fn table_list_holds_each_outcome_once() {
    let table = Table::new(10, 6, vec![4, 0, 4, 1]);
    let list = table.to_permutations();
    for x in 10..=13usize {
        let count = table.permutations_of(x).unwrap();
        let found = list.iter().filter(|pair| pair.0 == x).count();
        assert_eq!(found, 1);
        assert!(list.contains(&(x, count)));
    }
    assert_eq!(list.len(), 4);
}

#[test]
fn table_without_counts_holds_no_outcome() {
    let table = Table::new(5, 1, Vec::new());
    assert_eq!(table.permutations_of(5), Err(DiceError::OutOfRange));
    assert_eq!(table.to_permutations(), Vec::new());
    assert_eq!(table.to_chances(), Vec::new());
}

#[test]
fn table_may_end_at_the_largest_outcome() {
    let table = Table::new(usize::MAX - 1, 3, vec![1, 2]);
    assert_eq!(table.permutations_of(usize::MAX), Ok(2));
    assert_eq!(table.permutations_of(usize::MAX - 2), Err(DiceError::OutOfRange));
    assert_eq!(table.to_permutations(), vec![(usize::MAX - 1, 1), (usize::MAX, 2)]);
}
