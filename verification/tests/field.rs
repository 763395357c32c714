use sudoku::Field;

#[test]
fn test_fix() {
    let mut f = Field::default();
    f.fix(1);
    assert_eq!(f.value, Some(1));
    assert_eq!(f.options.len(), 0);
}

#[test]
fn test_remove() {
    let mut f: Field = Field { options: vec![1, 2, 3, 4], ..Default::default() };
    assert_eq!(f.options, vec![1, 2, 3, 4]);
    f.remove(5);
    assert_eq!(f.options, vec![1, 2, 3, 4]);
    f.remove(1);
    assert_eq!(f.options, vec![2, 3, 4]);
}

#[test]
fn default_cell_is_open_with_all_nine_candidates() {
    let f = Field::default();
    assert_eq!(f.value, None);
    assert!(!f.is_original);
    assert_eq!(f.options, vec![1, 2, 3, 4, 5, 6, 7, 8, 9]);
}

#[test]
fn fixed_cell_is_clue_with_no_candidates() {
    let f = Field::fixed(7);
    assert_eq!(f.value, Some(7));
    assert!(f.is_original);
    assert_eq!(f.options.len(), 0);
}

#[test]
fn fix_if_unique_commits_sole_candidate() {
    let mut f: Field = Field { options: vec![6], ..Default::default() };
    let settled = f.fix_if_unique();
    assert!(settled);
    assert_eq!(f.value, Some(6));
    assert_eq!(f.options.len(), 0);
}

#[test]
fn fix_if_unique_reports_unsettled_cell() {
    let mut f: Field = Field { options: vec![2, 5], ..Default::default() };
    let settled = f.fix_if_unique();
    assert!(!settled);
    assert_eq!(f.value, None);
    assert_eq!(f.options, vec![2, 5]);
}

#[test]
fn fix_if_unique_treats_empty_candidates_as_settled() {
    let mut f: Field = Field { options: vec![], ..Default::default() };
    let settled = f.fix_if_unique();
    assert!(settled);
    assert_eq!(f.value, None);
}
