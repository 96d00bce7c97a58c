use rusty_life::layout::{cell_at_pointer, fit_border};
use rusty_life::CellPosition;

#[test]
fn press_inside_a_cell_hits_it() {
    assert_eq!(cell_at_pointer(20, 35, 15, 1), Some(CellPosition { x: 1, y: 2 }));
    assert_eq!(cell_at_pointer(2, 2, 15, 1), Some(CellPosition { x: 0, y: 0 }));
    assert_eq!(cell_at_pointer(13, 13, 15, 1), Some(CellPosition { x: 0, y: 0 }));
}

#[test]
fn press_on_a_border_hits_nothing() {
    assert_eq!(cell_at_pointer(15, 35, 15, 1), None);
    assert_eq!(cell_at_pointer(16, 35, 15, 1), None);
    assert_eq!(cell_at_pointer(29, 35, 15, 1), None);
    assert_eq!(cell_at_pointer(20, 30, 15, 1), None);
    assert_eq!(cell_at_pointer(20, 44, 15, 1), None);
    assert_eq!(cell_at_pointer(0, 0, 15, 1), None);
}

#[test]
fn press_with_a_border_as_wide_as_the_cell_hits_nothing() {
    for x in 0..10 {
        assert_eq!(cell_at_pointer(x, 2, 5, 5), None);
        assert_eq!(cell_at_pointer(x, 2, 5, usize::MAX), None);
    }
}

#[test]
fn press_with_no_border_misses_the_first_unit_only() {
    assert_eq!(cell_at_pointer(0, 1, 4, 0), None);
    assert_eq!(cell_at_pointer(1, 1, 4, 0), Some(CellPosition { x: 0, y: 0 }));
    assert_eq!(cell_at_pointer(3, 3, 4, 0), Some(CellPosition { x: 0, y: 0 }));
    assert_eq!(cell_at_pointer(5, 7, 4, 0), Some(CellPosition { x: 1, y: 1 }));
}

#[test]
fn border_that_fits_is_kept() {
    assert_eq!(fit_border(15, 1), 1);
    assert_eq!(fit_border(15, 7), 7);
    assert_eq!(fit_border(10, 4), 4);
    assert_eq!(fit_border(1, 0), 0);
}

#[test]
fn border_that_does_not_fit_is_narrowed() {
    assert_eq!(fit_border(15, 8), 7);
    assert_eq!(fit_border(15, 100), 7);
    assert_eq!(fit_border(10, 5), 4);
    assert_eq!(fit_border(2, 1), 0);
    assert_eq!(fit_border(1, 1), 0);
    assert_eq!(fit_border(100, usize::MAX), 49);
}
