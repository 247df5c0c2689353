use grid2d::FontEncoder;
use grid2d::FontEncoderFormat4;
use grid2d::Grid;
use grid2d::GridError;
use grid2d::GridMask;
use grid2d::GridMatcher;
use grid2d::Similarity;

const IN_GRID_SIZE: [usize; 2] = [10, 10];
const AOI_START: [usize; 2] = [1, 2];
const OUT_GRID_SIZE: [usize; 2] = [5, 6];
const MASK_END: usize = 8;

fn widen(input: usize) -> u32 {
    (input * 1) as u32
}

fn test_matcher() -> GridMatcher<usize, u32, fn(usize) -> u32> {
    let mut grid_matcher: GridMatcher<usize, u32, fn(usize) -> u32> =
        GridMatcher::new(widen as fn(usize) -> u32)
            .with_area_of_interest([AOI_START[0], AOI_START[1], OUT_GRID_SIZE[0], OUT_GRID_SIZE[1]])
            .with_mask(GridMask::new(Grid::new(
                (0..OUT_GRID_SIZE[0] * OUT_GRID_SIZE[1]).map(|index| index < MASK_END).collect(),
                OUT_GRID_SIZE[0],
                OUT_GRID_SIZE[1],
            )));
    for multiplier in 0..8 {
        grid_matcher = grid_matcher.with_named_entry(
            &format!("test_grid_{multiplier}"),
            Grid::new(
                (0..IN_GRID_SIZE[0] * IN_GRID_SIZE[1]).map(|index| index * (multiplier + 1)).collect(),
                IN_GRID_SIZE[0],
                IN_GRID_SIZE[1],
            ),
        )
    }
    grid_matcher
}

fn budget(threshold: f32, compared: usize) -> usize {
    ((1.0 - threshold) * compared as f32).round() as usize
}

fn fraction(similarity: Similarity) -> f32 {
    similarity.matches as f32 / similarity.compared as f32
}

#[test]
fn test_grid_matcher_grid_processing() {
    let grid_matcher = test_matcher();
    for (_, grid) in grid_matcher.named_entries().iter() {
        assert_eq!((grid.width, grid.height), (OUT_GRID_SIZE[0], OUT_GRID_SIZE[1]));
        assert_eq!(&grid.data[MASK_END..], &[0; OUT_GRID_SIZE[0] * OUT_GRID_SIZE[1] - MASK_END]);
    }
    assert_eq!(grid_matcher.named_entries().len(), 8);
    assert_eq!(&grid_matcher.named_entries()[1].1.data[..MASK_END], &[42, 44, 46, 48, 50, 62, 64, 66]);
}

#[test]
fn test_grid_matcher_find_similar() {
    let grid_matcher = test_matcher();
    let bad_target_grid: Grid<usize> =
        Grid::new(vec![0; IN_GRID_SIZE[0] * IN_GRID_SIZE[1]], IN_GRID_SIZE[0], IN_GRID_SIZE[1]);
    assert_eq!(grid_matcher.first_similar_to(bad_target_grid.clone(), budget(0.5, MASK_END)), None);
    assert_eq!(fraction(grid_matcher.most_similar_to(bad_target_grid.clone()).unwrap().1), 0.0);

    let perfect_target_grid_index: usize = 3;
    let perfect_target_grid: Grid<usize> = Grid::new(
        (0..IN_GRID_SIZE[0] * IN_GRID_SIZE[1]).map(|index| index * (perfect_target_grid_index + 1)).collect(),
        IN_GRID_SIZE[0],
        IN_GRID_SIZE[1],
    );
    assert_eq!(
        grid_matcher.first_similar_to(perfect_target_grid.clone(), budget(0.95, MASK_END)),
        Some(format!("test_grid_{perfect_target_grid_index}").as_str())
    );
    let best = grid_matcher.most_similar_to(perfect_target_grid.clone()).unwrap();
    assert_eq!(best.0, format!("test_grid_{perfect_target_grid_index}").as_str());
    assert_eq!(fraction(best.1), 1.0);

    let good_target_grid_index: usize = 5;
    let mut good_target_grid: Grid<usize> = Grid::new(
        (0..IN_GRID_SIZE[0] * IN_GRID_SIZE[1]).map(|index| index * (good_target_grid_index + 1)).collect(),
        IN_GRID_SIZE[0],
        IN_GRID_SIZE[1],
    );
    let good_grid_mutations: usize = 2;
    for mutation_index in 0..good_grid_mutations {
        good_target_grid.set((AOI_START[0] + mutation_index, AOI_START[1]), 999_999);
    }
    let expected_similarity: f32 = 1.0 / MASK_END as f32 * (MASK_END - good_grid_mutations) as f32;
    assert_eq!(
        grid_matcher.first_similar_to(good_target_grid.clone(), budget(0.5, MASK_END)),
        Some(format!("test_grid_{good_target_grid_index}").as_str())
    );
    let best = grid_matcher.most_similar_to(good_target_grid.clone()).unwrap();
    assert_eq!(best.0, format!("test_grid_{good_target_grid_index}").as_str());
    assert_eq!(best.1, Similarity { matches: MASK_END - good_grid_mutations, compared: MASK_END });
    assert_eq!(fraction(best.1), expected_similarity);
}

#[test]
fn test_grid_matcher_takes_the_first_of_equals() {
    let matcher = GridMatcher::new(|value: u8| value)
        .with_named_entry("a", Grid::new(vec![1, 2, 3, 4], 2, 2))
        .with_named_entry("b", Grid::new(vec![1, 2, 3, 9], 2, 2))
        .with_named_entry("c", Grid::new(vec![1, 2, 3, 4], 2, 2))
        .with_named_entry("d", Grid::new(vec![1, 2], 2, 1));
    let target: Grid<u8> = Grid::new(vec![1, 2, 3, 9], 2, 2);
    assert_eq!(matcher.most_similar_to(target.clone()), Some(("b", Similarity { matches: 4, compared: 4 })));
    let other: Grid<u8> = Grid::new(vec![1, 2, 3, 5], 2, 2);
    assert_eq!(matcher.most_similar_to(other.clone()), Some(("a", Similarity { matches: 3, compared: 4 })));
    assert_eq!(matcher.first_similar_to(other.clone(), 0), None);
    assert_eq!(matcher.first_similar_to(other, 1), Some("a"));
    let empty = GridMatcher::new(|value: u8| value);
    assert_eq!(empty.most_similar_to(target), None);
}

#[test]
fn test_glyph_id_for_char() {
    let encoder: FontEncoderFormat4 = FontEncoderFormat4::new(
        vec![0x41, 0x61, 0xFFFF],
        vec![0x5A, 0x7A, 0xFFFF],
        vec![-0x40, 5, 1],
        vec![0, 4, 0],
        vec![7, 0, 9],
    );
    assert_eq!(encoder.glyph_id_for_char('A'), Some(1));
    assert_eq!(encoder.glyph_id_for_char('Z'), Some(26));
    assert_eq!(encoder.glyph_id_for_char('a'), Some(12));
    assert_eq!(encoder.glyph_id_for_char('b'), None);
    assert_eq!(encoder.glyph_id_for_char('c'), Some(14));
    assert_eq!(encoder.glyph_id_for_char('d'), None);
    assert_eq!(encoder.glyph_id_for_char('0'), None);
    assert_eq!(encoder.glyph_id_for_char('\u{FFFF}'), Some(0));
}

#[test]
fn test_weighed_path() {
    let grid: Grid<u8> = Grid::new(vec![1, 9, 1, 1, 1, 1, 1, 9, 1], 3, 3);
    let path = grid
        .find_path_weighed((0usize, 0usize), (2usize, 0usize), |_, to| {
            if *to.1 == 9 {
                None
            } else {
                Some(*to.1 as u32)
            }
        })
        .unwrap();
    assert_eq!(path, vec![[0, 0], [0, 1], [1, 1], [2, 1], [2, 0]]);
    let blocked = grid.find_path_weighed(0usize, 2usize, |_, _| None);
    assert_eq!(blocked, Err(GridError::PathNotFound));
    assert_eq!(grid.find_path_weighed(0usize, 9usize, |_, _| Some(1)), Err(GridError::OutOfBounds));
    assert_eq!(grid.find_path_weighed(9usize, 0usize, |_, _| Some(1)), Err(GridError::OutOfBounds));
    assert_eq!(grid.find_path_weighed(4usize, 4usize, |_, _| Some(1)), Err(GridError::LoopDetected));
}

#[test]
fn test_weighed_path_with_free_moves() {
    let grid: Grid<u8> = Grid::new(vec![0; 12], 4, 3);
    let path = grid.find_path_weighed(0usize, 11usize, |_, _| Some(0)).unwrap();
    assert_eq!(path.first(), Some(&[0, 0]));
    assert_eq!(path.last(), Some(&[3, 2]));
    for pair in path.windows(2) {
        let distance = pair[0][0].abs_diff(pair[1][0]) + pair[0][1].abs_diff(pair[1][1]);
        assert_eq!(distance, 1);
    }
}
