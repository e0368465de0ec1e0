use array_stat_functions::mode;

#[test]
fn mode_example() {
    let num = vec![1, 1, 2, 2, 2, 3];
    assert_eq!(mode(&num), 2);
}

#[test]
fn mode_single_element() {
    let num = vec![7];
    assert_eq!(mode(&num), 7);
}

#[test]
fn mode_tie_breaks_to_first_occurrence() {
    assert_eq!(mode(&[1, 2, 2, 1]), 1);
    assert_eq!(mode(&[2, 1, 1, 2]), 2);
}

#[test]
fn mode_all_distinct_returns_first() {
    assert_eq!(mode(&[4, 9, 8]), 4);
}
