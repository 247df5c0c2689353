use grid2d::Grid;
use grid2d::GridMask;
use grid2d::Maskable;

#[test]
fn test_create_basic_mask() {
    let grid: Grid<usize> = Grid::new((0..9).collect(), 3, 3);
    let mask: GridMask = grid.create_mask(|value| value % 3 == 1);
    let mask_grid: &Grid<bool> = mask.grid();

    assert_eq!(mask_grid.data, vec![false, true, false, false, true, false, false, true, false]);
}

#[test]
fn test_create_value_mask() {
    let grid: Grid<usize> = Grid::new((0..9).collect(), 3, 3);
    let mask: GridMask = grid.create_value_mask(3);
    let mask_grid: &Grid<bool> = mask.grid();

    assert_eq!(mask_grid.data, vec![false, false, false, true, false, false, false, false, false]);
}

#[test]
fn test_apply_mask() {
    let mut grid: Grid<usize> = Grid::new((0..9).collect(), 3, 3);
    let mask: GridMask = grid.create_mask(|value| *value >= 5);
    grid.apply_mask(&mask);

    assert_eq!(grid.data, vec![0, 0, 0, 0, 0, 5, 6, 7, 8]);
}

#[test]
fn test_create_and_apply_mask() {
    let mut grid: Grid<usize> = Grid::new((0..9).collect(), 3, 3);
    grid.mask(|value| *value >= 5);

    assert_eq!(grid.data, vec![0, 0, 0, 0, 0, 5, 6, 7, 8]);
}

#[test]
fn test_mask_ranges() {
    let grid: Grid<usize> = Grid::new((0..9).collect(), 3, 3);
    let mask: GridMask = grid.create_mask(|value| value % 3 == 1);
    let mask_grid: &Grid<bool> = mask.grid();

    assert_eq!(mask_grid.data, vec![false, true, false, false, true, false, false, true, false]);
    assert_eq!(mask.positive_ranges(), &[1..2, 4..5, 7..8]);
    assert_eq!(mask.negative_ranges(), &[0..1, 2..4, 5..7, 8..9]);
}

#[test]
fn test_mask_of_empty_and_uniform_grids() {
    let empty: GridMask = GridMask::new(Grid::new(Vec::new(), 0, 0));
    assert_eq!(empty.positive_ranges().len(), 0);
    assert_eq!(empty.negative_ranges().len(), 0);
    let full: GridMask = GridMask::new(Grid::new(vec![true; 6], 3, 2));
    assert_eq!(full.positive_ranges(), &[0..6]);
    assert_eq!(full.negative_ranges().len(), 0);
    assert_eq!((full.width(), full.height()), (3, 2));
}

#[test]
fn test_value_mask_and_masked() {
    let mut grid: Grid<u8> = Grid::new(vec![1, 2, 1, 3], 2, 2);
    let mask: GridMask = grid.create_value_mask(1);
    let masked: Grid<u8> = Grid::new(vec![9, 8, 7, 6], 2, 2).masked(&mask);
    assert_eq!(masked.data(), &[9, 0, 7, 0]);
    grid.value_mask(1);
    assert_eq!(grid.data(), &[1, 0, 1, 0]);
}

#[test]
fn test_masked_data_gives_the_positive_runs() {
    let grid: Grid<u8> = Grid::new(vec![1, 2, 3, 4, 5, 6], 3, 2);
    let mask: GridMask = GridMask::new(Grid::new(vec![true, true, false, false, true, false], 3, 2));
    let parts = grid.masked_data(&mask);
    assert_eq!(parts.len(), 2);
    assert_eq!(parts[0], [1, 2]);
    assert_eq!(parts[1], [5]);
}

#[test]
fn test_as_mask_conversions() {
    let cells: Grid<bool> = Grid::new(vec![true, false], 2, 1);
    let from_grid: GridMask = cells.clone().as_mask();
    assert_eq!(from_grid.positive_ranges(), &[0..1]);
    let again: GridMask = from_grid.clone().as_mask();
    assert_eq!(again, from_grid);
    let from_pair: GridMask = (Grid::new(vec![1u8, 5, 9], 3, 1), |value: &u8| *value > 4).as_mask();
    assert_eq!(from_pair.grid().data, vec![false, true, true]);
}
