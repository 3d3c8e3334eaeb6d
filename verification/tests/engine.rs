use sudoku::sudoku::{Sudoku, ValidationError};

#[test]
fn new_grid_is_empty() {
    let grid = Sudoku::new(3);
    assert_eq!(grid.n, 3);
    for x in 0..9u32 {
        for y in 0..9u32 {
            assert_eq!(grid.get((x, y)), Ok(None));
        }
    }
}

#[test]
fn get_out_of_grid() {
    let grid = Sudoku::new(3);
    assert_eq!(grid.get((9, 0)), Err(ValidationError::OutOfGrid));
    assert_eq!(grid.get((0, 9)), Err(ValidationError::OutOfGrid));
    assert_eq!(grid.get((u32::MAX, u32::MAX)), Err(ValidationError::OutOfGrid));
}

#[test]
fn set_stores_value_iff_valid() {
    let mut grid = Sudoku::new(3);
    assert!(grid.is_valid((4, 7), 5).is_ok());
    assert_eq!(grid.set((4, 7), 5), Ok(()));
    assert_eq!(grid.get((4, 7)), Ok(Some(5)));
    // A rejected placement leaves the grid unchanged.
    assert!(grid.is_valid((5, 7), 5).is_err());
    assert!(grid.set((5, 7), 5).is_err());
    assert_eq!(grid.get((5, 7)), Ok(None));
}

#[test]
fn set_out_of_grid() {
    let mut grid = Sudoku::new(2);
    assert_eq!(grid.set((4, 0), 1), Err(ValidationError::OutOfGrid));
    assert_eq!(grid.set((0, 4), 1), Err(ValidationError::OutOfGrid));
}

#[test]
fn is_valid_rejects_bad_values() {
    let grid = Sudoku::new(2);
    assert!(matches!(grid.is_valid((0, 0), 0), Err(ValidationError::InvalidNum)));
    assert!(matches!(grid.is_valid((0, 0), 5), Err(ValidationError::InvalidNum)));
    assert!(grid.is_valid((0, 0), 1).is_ok());
    assert!(grid.is_valid((0, 0), 4).is_ok());
}

#[test]
fn is_valid_checks_coordinates_before_value() {
    let grid = Sudoku::new(2);
    assert!(matches!(grid.is_valid((4, 0), 0), Err(ValidationError::OutOfGrid)));
}

#[test]
fn scenario_row_and_region_conflicts() {
    // Block size 2, side 4: a row conflict names the earlier cell of the row,
    // a region conflict the earlier cell of the shared 2x2 region. A cell of
    // the same row that also shares the region, such as (1, 0), reports the
    // region conflict, since that check runs first.
    let mut grid = Sudoku::new(2);
    assert_eq!(grid.set((0, 0), 3), Ok(()));
    assert_eq!(grid.set((2, 0), 3), Err(ValidationError::GroupHasSameNumber(0, 0)));
    assert_eq!(grid.set((1, 0), 3), Err(ValidationError::RegionHasSameNumber(0, 0)));
    assert_eq!(grid.set((0, 1), 3), Err(ValidationError::RegionHasSameNumber(0, 0)));
}

#[test]
fn column_conflict_reports_column_cell() {
    let mut grid = Sudoku::new(2);
    assert_eq!(grid.set((0, 0), 2), Ok(()));
    // (0, 3) shares only the column with (0, 0).
    assert_eq!(grid.set((0, 3), 2), Err(ValidationError::GroupHasSameNumber(0, 0)));
}

#[test]
fn region_conflict_found_before_group_conflict() {
    let mut grid = Sudoku::new(2);
    assert_eq!(grid.set((1, 1), 4), Ok(()));
    assert_eq!(grid.set((3, 0), 4), Ok(()));
    // Placing 4 at (0, 0) conflicts with (1, 1) (region) and (3, 0) (row);
    // the region check runs first.
    assert_eq!(grid.set((0, 0), 4), Err(ValidationError::RegionHasSameNumber(1, 1)));
}

#[test]
fn region_conflicts_scanned_row_major() {
    // Two region conflicts for (0, 0): at (1, 0) and at (0, 1). Such a grid
    // cannot be built through `set`, so it is deserialized. The scan of the
    // region runs row-major, so (1, 0) is reported.
    let grid = sudoku::sudoku::Sudoku::from_string(String::from("0100\n1000\n0000\n0000")).unwrap();
    assert_eq!(grid.is_valid((0, 0), 1), Err(ValidationError::RegionHasSameNumber(1, 0)));
}

#[test]
fn refilling_a_cell_ignores_its_own_value() {
    let mut grid = Sudoku::new(2);
    assert_eq!(grid.set((2, 2), 1), Ok(()));
    // The cell itself holds 1, which must not count as a conflict.
    assert!(grid.is_valid((2, 2), 1).is_ok());
    assert_eq!(grid.set((2, 2), 1), Ok(()));
}

#[test]
fn unset_clears_unconditionally() {
    let mut grid = Sudoku::new(2);
    assert_eq!(grid.set((1, 2), 4), Ok(()));
    grid.unset((1, 2));
    assert_eq!(grid.get((1, 2)), Ok(None));
    // Clearing an already-empty cell and out-of-grid coordinates never fail.
    grid.unset((1, 2));
    assert_eq!(grid.get((1, 2)), Ok(None));
    grid.unset((100, 100));
    assert_eq!(grid.get((0, 0)), Ok(None));
}

#[test]
fn entropy_of_filled_cell_is_not_applicable() {
    let mut grid = Sudoku::new(2);
    assert_eq!(grid.set((0, 0), 1), Ok(()));
    assert_eq!(grid.get_entropy((0, 0)), None);
}

#[test]
fn entropy_out_of_grid_is_not_applicable() {
    let grid = Sudoku::new(2);
    assert_eq!(grid.get_entropy((4, 0)), None);
}

#[test]
fn entropy_lists_exactly_the_valid_values_ascending() {
    let mut grid = Sudoku::new(2);
    assert_eq!(grid.set((1, 0), 2), Ok(()));
    assert_eq!(grid.set((0, 2), 3), Ok(()));
    let entropy = grid.get_entropy((0, 0)).unwrap();
    assert_eq!(entropy, vec![1, 4]);
    // Every listed value passes is_valid, every omitted one fails it.
    for v in 1..=4u32 {
        assert_eq!(entropy.contains(&v), grid.is_valid((0, 0), v).is_ok());
    }
    for pair in entropy.windows(2) {
        assert!(pair[0] < pair[1]);
    }
}

#[test]
fn entropy_of_empty_grid_cell_is_full_range() {
    let grid = Sudoku::new(2);
    assert_eq!(grid.get_entropy((3, 3)), Some(vec![1, 2, 3, 4]));
}

#[test]
fn scenario_saturated_cell_has_empty_entropy() {
    // Row, column and region of (0, 0) together rule out every value:
    // the entropy is an empty list, not an error.
    let mut grid = Sudoku::new(2);
    assert_eq!(grid.set((2, 0), 1), Ok(()));
    assert_eq!(grid.set((0, 2), 2), Ok(()));
    assert_eq!(grid.set((1, 1), 3), Ok(()));
    assert_eq!(grid.set((3, 0), 4), Ok(()));
    assert_eq!(grid.get_entropy((0, 0)), Some(vec![]));
}
