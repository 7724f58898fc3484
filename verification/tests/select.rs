use lumixbackup::select::{parse_numbers, parse_selection, select_shoot};

#[test]
fn numbers_are_read_between_whitespace() {
    assert_eq!(parse_selection("1 3"), vec![1, 3]);
    assert_eq!(parse_selection("  2\t5 \n 7 "), vec![2, 5, 7]);
    assert_eq!(parse_selection("3 3 1"), vec![3, 3, 1]);
    assert_eq!(parse_selection(""), Vec::<usize>::new());
    assert_eq!(parse_selection("   "), Vec::<usize>::new());
}

#[test]
fn what_is_no_number_is_passed_over() {
    assert_eq!(parse_selection("1 two 3"), vec![1, 3]);
    assert_eq!(parse_selection("1,2"), Vec::<usize>::new());
    assert_eq!(parse_selection("-1 0 +4"), vec![0, 4]);
    assert_eq!(parse_selection("99999999999999999999999 8"), vec![8]);
    let words = vec!["7".to_string(), "".to_string(), "x".to_string(), "12".to_string()];
    assert_eq!(parse_numbers(&words), vec![7, 12]);
}

#[test]
fn shoots_are_chosen_by_numbers_from_one() {
    assert_eq!(select_shoot(1, 3), Some(0));
    assert_eq!(select_shoot(3, 3), Some(2));
    assert_eq!(select_shoot(usize::MAX, usize::MAX), Some(usize::MAX - 1));
}

#[test]
fn numbers_without_a_shoot_choose_nothing() {
    assert_eq!(select_shoot(0, 3), None);
    assert_eq!(select_shoot(4, 3), None);
    assert_eq!(select_shoot(1, 0), None);
    assert_eq!(select_shoot(0, 0), None);
    assert_eq!(select_shoot(usize::MAX, 3), None);
}
