use grid2d::Grid;
use grid2d::GridError;
use grid2d::GridMask;
use grid2d::similarity_settings::equality_settings;
use grid2d::Similarity;
use grid2d::SimilaritySettings;

fn fraction(similarity: Result<Similarity, GridError>) -> f32 {
    match similarity {
        Ok(similarity) => similarity.matches as f32 / similarity.compared as f32,
        Err(_) => 0.0,
    }
}

fn budget(threshold: f32, compared: usize) -> usize {
    ((1.0 - threshold) * compared as f32).round() as usize
}

#[test]
fn test_similarity() {
    let grid: Grid<i32> = Grid::new(vec![0, 1, 2, 3, 4, 5, 6, 7, 8], 3, 3);
    let compare_grid: Grid<i32> = Grid::new(vec![0, 1, 2, 3, 4, 5, 6, 7, 9], 3, 3);

    assert_eq!(grid.similarity_to(&compare_grid), Ok(Similarity { matches: 8, compared: 9 }));
    assert_eq!(8.0 / 9.0, fraction(grid.similarity_to(&compare_grid)));
}

#[test]
fn test_similarity_greater_than() {
    let grid: Grid<i32> = Grid::new(vec![0, 1, 2, 3, 4, 5, 6, 7, 8], 3, 3);
    let compare_grid: Grid<i32> = Grid::new(vec![0, 1, 2, 4, 4, 5, 6, 7, 8], 3, 3);

    assert_eq!(grid.similar_to(&compare_grid, budget(1.0, 9)), false);
    assert_eq!(grid.similar_to(&compare_grid, budget(1.0 / 9.0 * 8.0, 9)), true);
}

#[test]
fn test_similarity_differently_sized() {
    let grid: Grid<i32> = Grid::new(vec![0, 1, 2, 3, 4, 5, 6, 7, 8], 3, 3);
    let compare_grid: Grid<i32> = Grid::new(vec![0, 1, 2, 3, 4, 5, 6, 7], 3, 3);

    assert_eq!(grid.similarity_to(&compare_grid), Err(GridError::DimensionMismatch));
    assert_eq!(fraction(grid.similarity_to(&compare_grid)), 0.0);
    assert_eq!(grid.similar_to(&compare_grid, 9), false);
}

#[test]
fn test_masked_similarity() {
    let grid: Grid<i32> = Grid::new(vec![0, 1, 2, 3, 4, 5, 6, 7, 8], 3, 3);
    let compare_grid: Grid<i32> = Grid::new(vec![0, 9, 2, 9, 4, 5, 6, 7, 9], 3, 3);
    let mask: GridMask = GridMask::new(Grid::new(
        vec![true, true, false, false, true, true, false, false, true],
        3,
        3,
    ));
    assert_eq!(
        grid.similarity_to_masked(&compare_grid, &mask),
        Ok(Similarity { matches: 3, compared: 5 })
    );
    assert_eq!(grid.similar_to_masked(&compare_grid, 2, &mask), true);
    assert_eq!(grid.similar_to_masked(&compare_grid, 1, &mask), false);
    let small_mask: GridMask = GridMask::new(Grid::new(vec![true; 4], 2, 2));
    assert_eq!(grid.similarity_to_masked(&compare_grid, &small_mask), Err(GridError::MaskMismatch));
    assert_eq!(grid.similar_to_masked(&compare_grid, 9, &small_mask), false);
    assert_eq!(grid.validate_comparable_grids(&compare_grid, Some(&small_mask)), Err(GridError::MaskMismatch));
    assert_eq!(grid.validate_comparable_grids(&compare_grid, Some(&mask)), Ok(()));
}

#[test]
fn test_find_small() {
    let grid: Grid<i32> = Grid::new(vec![0, 1, 2, 3, 4, 5, 6, 7, 8], 3, 3);
    let sub_grid: Grid<i32> = Grid::new(vec![3, 4, 6, 7], 2, 2);

    assert_eq!(grid.find(&sub_grid, budget(1.0, 4)), Some([0, 1]));
}

fn filled_board(tile_size: usize, fill_target: [usize; 2]) -> Grid<char> {
    let mut grid: Grid<char> = Grid::checkers_board(10, tile_size, 'x', ' ');
    for y in fill_target[1] * tile_size..(fill_target[1] + 1) * tile_size {
        for x in fill_target[0] * tile_size..(fill_target[0] + 1) * tile_size {
            grid.set((x, y), 'x');
        }
    }
    grid
}

#[test]
fn test_find_large() {
    const TILE_SIZE: usize = 3;
    const FILL_TARGET: [usize; 2] = [8, 3];

    let grid: Grid<char> = filled_board(TILE_SIZE, FILL_TARGET);
    let sub_grid: Grid<char> = Grid::new(vec!['x'; 3 * TILE_SIZE * TILE_SIZE], 3 * TILE_SIZE, TILE_SIZE);

    assert_eq!(
        grid.find(&sub_grid, budget(1.0, 3 * TILE_SIZE * TILE_SIZE)),
        Some([(FILL_TARGET[0] - 1) * TILE_SIZE, FILL_TARGET[1] * TILE_SIZE])
    );
}

#[test]
fn test_find_large_margined() {
    const TILE_SIZE: usize = 3;
    const FILL_TARGET: [usize; 2] = [8, 3];

    let mut grid: Grid<char> = filled_board(TILE_SIZE, FILL_TARGET);
    grid.set((FILL_TARGET[0] * TILE_SIZE + 2, FILL_TARGET[1] * TILE_SIZE), 'n');
    let sub_grid: Grid<char> = Grid::new(vec!['x'; 3 * TILE_SIZE * TILE_SIZE], 3 * TILE_SIZE, TILE_SIZE);

    assert_eq!(
        grid.find(&sub_grid, budget(0.9, 3 * TILE_SIZE * TILE_SIZE)),
        Some([(FILL_TARGET[0] - 1) * TILE_SIZE, FILL_TARGET[1] * TILE_SIZE])
    );
}

#[test]
fn test_find_large_masked() {
    const TILE_SIZE: usize = 3;
    const FILL_TARGET: [usize; 2] = [8, 3];

    let grid: Grid<char> = filled_board(TILE_SIZE, FILL_TARGET);
    let sub_grid: Grid<char> =
        Grid::new(vec!['x'; 3 * TILE_SIZE * (TILE_SIZE + 1)], 3 * TILE_SIZE, TILE_SIZE + 1);
    let mask: GridMask = GridMask::new(Grid::new(
        vec![vec![true; 3 * TILE_SIZE * TILE_SIZE], vec![false; 3 * TILE_SIZE]].into_iter().flatten().collect(),
        3 * TILE_SIZE,
        TILE_SIZE + 1,
    ));

    assert_eq!(
        grid.find_masked(&sub_grid, &mask, budget(1.0, 3 * TILE_SIZE * (TILE_SIZE + 1))),
        Some([(FILL_TARGET[0] - 1) * TILE_SIZE, FILL_TARGET[1] * TILE_SIZE])
    );
}

#[test]
fn test_find_all_finds_overlapping_places() {
    let grid: Grid<u8> = Grid::new(vec![1, 1, 1, 0, 1, 1, 1, 1], 4, 2);
    let pair: Grid<u8> = Grid::new(vec![1, 1], 2, 1);
    assert_eq!(grid.find_all(&pair, 0), vec![[0, 0], [1, 0], [0, 1], [1, 1], [2, 1]]);
    assert_eq!(grid.find_all(&pair, 1).len(), 6);
    assert_eq!(grid.find_starting_at_position(&pair, 0, [2, 0]), Some([0, 1]));
    assert_eq!(grid.find_starting_at_position(&pair, 0, [3, 1]), None);
    let mask: GridMask = GridMask::new(Grid::new(vec![true, false], 2, 1));
    assert_eq!(grid.find_all_masked(&pair, &mask, 0).len(), 6);
    assert_eq!(grid.find_starting_at_position_masked(&pair, &mask, 0, [2, 0]), Some([2, 0]));
}

#[test]
fn test_find_needle_larger_than_haystack() {
    let grid: Grid<u8> = Grid::new(vec![1, 1], 2, 1);
    let needle: Grid<u8> = Grid::new(vec![1, 1, 1], 3, 1);
    assert_eq!(grid.find(&needle, 3), None);
    assert_eq!(grid.find_all(&needle, 3), Vec::<[usize; 2]>::new());
    assert_eq!(grid.validate_findable_grids(&needle, None), Err(GridError::NeedleTooLarge));
}

#[test]
fn test_find_at_position() {
    let grid: Grid<u8> = Grid::new(vec![0, 1, 2, 3, 4, 5, 6, 7, 8], 3, 3);
    let needle: Grid<u8> = Grid::new(vec![4, 5, 7, 9], 2, 2);
    assert_eq!(grid.find_at_position(&needle, 0, [1, 1]), false);
    assert_eq!(grid.find_at_position(&needle, 1, [1, 1]), true);
    let mask: Grid<bool> = Grid::new(vec![true, true, true, false], 2, 2);
    assert_eq!(grid.find_at_position_masked(&needle, &mask, 0, [1, 1]), true);
    assert_eq!(grid.find_at_position_masked(&needle, &mask, 0, [0, 1]), false);
}

#[test]
fn test_similarity_settings() {
    let grid: Grid<i32> = Grid::new(vec![0, 10, 20, 30], 2, 2);
    let other: Grid<i32> = Grid::new(vec![1, 10, 25, 90], 2, 2);
    let exact = equality_settings::<i32>();
    assert_eq!(grid.similarity_by(&other, &exact), Ok(Similarity { matches: 1, compared: 4 }));
    let near = SimilaritySettings::new(|a: &i32, b: &i32| (a - b).abs() <= 5);
    assert_eq!(grid.similarity_by(&other, &near), Ok(Similarity { matches: 3, compared: 4 }));
    let masked = SimilaritySettings::new(|a: &i32, b: &i32| (a - b).abs() <= 5)
        .with_mask(GridMask::new(Grid::new(vec![true, false, false, true], 2, 2)));
    assert_eq!(grid.similarity_by(&other, &masked), Ok(Similarity { matches: 1, compared: 2 }));
    let yes = SimilaritySettings::new(|a: &i32, b: &i32| (a - b).abs() <= 5).with_max_mismatches(1);
    assert_eq!(grid.similarity_by(&other, &yes), Ok(Similarity { matches: 1, compared: 1 }));
    let no = SimilaritySettings::new(|a: &i32, b: &i32| (a - b).abs() <= 5).with_max_mismatches(0);
    assert_eq!(grid.similarity_by(&other, &no), Ok(Similarity { matches: 0, compared: 1 }));
    let wide: Grid<i32> = Grid::new(vec![0, 10, 20, 30], 4, 1);
    assert_eq!(grid.similarity_by(&wide, &near), Err(GridError::DimensionMismatch));
    let small_mask = SimilaritySettings::new(|a: &i32, b: &i32| a == b)
        .with_mask(GridMask::new(Grid::new(vec![true], 1, 1)));
    assert_eq!(grid.similarity_by(&other, &small_mask), Err(GridError::MaskMismatch));
}
