use algo_toolkit::dp::Tableau;

#[test]
fn test_tableau() {
    let mut d = Tableau::new(10, 10);
    d.row_mut(0)[0] = 42;
    assert_eq!(d[0][0], 42);
}

#[test]
fn new_tableau_holds_default_values() {
    let d: Tableau<i32> = Tableau::new(3, 4);
    for row in 0..3 {
        assert_eq!(d.row(row), [0, 0, 0, 0]);
    }
}

#[test]
fn rows_do_not_overlap() {
    let mut d: Tableau<u8> = Tableau::new(3, 2);
    d.row_mut(1)[0] = 7;
    d.row_mut(1)[1] = 8;
    d.row_mut(2)[1] = 9;
    assert_eq!(d.row(0), [0, 0]);
    assert_eq!(d.row(1), [7, 8]);
    assert_eq!(d.row(2), [0, 9]);
    assert_eq!(d[1], [7, 8]);
}

#[test]
fn rows_of_no_cells() {
    let d: Tableau<i32> = Tableau::new(4, 0);
    assert!(d.row(0).is_empty());
    assert!(d.row(3).is_empty());
}

#[test]
fn holds_row_tells_the_rows_of_the_table() {
    let d: Tableau<i32> = Tableau::new(3, 4);
    assert!(d.holds_row(0));
    assert!(d.holds_row(2));
    assert!(!d.holds_row(3));
    assert!(!d.holds_row(100));
    assert!(!d.holds_row(usize::MAX));
    let empty: Tableau<i32> = Tableau::new(0, 4);
    assert!(!empty.holds_row(0));
    let flat: Tableau<i32> = Tableau::new(2, 0);
    assert!(flat.holds_row(0));
    assert!(flat.holds_row(usize::MAX));
}

#[test]
fn one_cell_and_one_row() {
    let mut d: Tableau<i64> = Tableau::new(1, 1);
    d.row_mut(0)[0] = -5;
    assert_eq!(d.row(0), [-5]);
    let mut wide: Tableau<i64> = Tableau::new(1, 5);
    wide.row_mut(0)[4] = 9;
    assert_eq!(wide[0], [0, 0, 0, 0, 9]);
}
