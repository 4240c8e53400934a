use advent2023::oasis::DifferencesTable;

#[test]
fn next_values_are_18_28_68() {
    assert_eq!(DifferencesTable::create(&[0, 3, 6, 9, 12, 15]).predict_next_number(), 18);
    assert_eq!(DifferencesTable::create(&[1, 3, 6, 10, 15, 21]).predict_next_number(), 28);
    assert_eq!(DifferencesTable::create(&[10, 13, 16, 21, 30, 45]).predict_next_number(), 68);
}

#[test]
fn previous_values_are_minus_3_0_5() {
    assert_eq!(DifferencesTable::create(&[0, 3, 6, 9, 12, 15]).predict_previous_number(), -3);
    assert_eq!(DifferencesTable::create(&[1, 3, 6, 10, 15, 21]).predict_previous_number(), 0);
    assert_eq!(DifferencesTable::create(&[10, 13, 16, 21, 30, 45]).predict_previous_number(), 5);
}

#[test]
fn layers_are_differences() {
    assert_eq!(DifferencesTable::calculate_next_layer(&[10, 13, 16, 21, 30, 45]), vec![3, 3, 5, 9, 15]);
    assert_eq!(DifferencesTable::calculate_next_layer(&[5]), Vec::<i64>::new());
    assert_eq!(DifferencesTable::calculate_next_layer(&[]), Vec::<i64>::new());
    assert_eq!(DifferencesTable::calculate_next_layer(&[4, -4]), vec![-8]);
    assert!(DifferencesTable::is_zero_layer(&[0, 0, 0]));
    assert!(DifferencesTable::is_zero_layer(&[]));
    assert!(!DifferencesTable::is_zero_layer(&[0, 1, 0]));
}

#[test]
fn constant_and_short_sequences() {
    assert_eq!(DifferencesTable::create(&[7, 7, 7]).predict_next_number(), 7);
    assert_eq!(DifferencesTable::create(&[7, 7, 7]).predict_previous_number(), 7);
    assert_eq!(DifferencesTable::create(&[4]).predict_next_number(), 4);
    assert_eq!(DifferencesTable::create(&[0, 0]).predict_next_number(), 0);
    assert_eq!(DifferencesTable::create(&[3, 1, -1]).predict_next_number(), -3);
}
