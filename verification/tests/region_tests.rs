use grid2d::Grid;
use grid2d::GridError;
use grid2d::GridRegion;

fn marks(cells: &[char]) -> Vec<bool> {
    cells.iter().map(|c| *c == 'x').collect()
}

#[test]
fn test_region_at() {
    let grid: Grid<i32> = Grid::new(vec![10, 0, 0, 0, 10, 9, 14, 12, 0], 3, 3);
    let region: GridRegion = grid.region_at([1, 1], |left, right| left.max(right) - left.min(right) < 3);

    assert_eq!(region.grid().data, vec![false, false, false, false, true, true, true, true, false]);
}

#[test]
fn test_region_at_eq() {
    let grid: Grid<char> = Grid::new(vec!['x', ' ', ' ', ' ', 'x', 'x', 'x', 'x', ' '], 3, 3);
    let region: GridRegion = grid.region_at_eq([1, 1]);

    assert_eq!(region.grid().data, vec![false, false, false, false, true, true, true, true, false]);
}

#[test]
fn test_region_at_follows_a_gradient() {
    let grid: Grid<i32> = Grid::new(vec![0, 1, 2, 3, 9, 9, 9, 4, 9, 9, 9, 5], 4, 3);
    let by_step: GridRegion = grid.region_at(0usize, |from, to| (from - to).abs() <= 1);
    assert_eq!(
        by_step.grid().data,
        vec![true, true, true, true, false, false, false, true, false, false, false, true]
    );
    let by_value: GridRegion = grid.region_at_eq(0usize);
    assert_eq!(
        by_value.grid().data,
        vec![true, false, false, false, false, false, false, false, false, false, false, false]
    );
}

#[test]
fn test_region_bounds_and_indexes() {
    let region: GridRegion = GridRegion::new(Grid::new(
        marks(&[' ', ' ', ' ', ' ', ' ', 'x', 'x', ' ', ' ', ' ', 'x', ' ']),
        4,
        3,
    ));
    assert_eq!(region.bounds, [1, 1, 2, 2]);
    assert_eq!(region.indexes(), vec![5, 6, 10]);
    let sub = region.bounds_sub_grid();
    assert_eq!((sub.width(), sub.height()), (2, 2));
    assert_eq!(sub.data, vec![&true, &true, &false, &true]);
    let empty: GridRegion = GridRegion::new(Grid::new(vec![false; 12], 4, 3));
    assert_eq!(empty.bounds, [0, 0, 0, 0]);
    assert_eq!(empty.indexes(), Vec::<usize>::new());
}

#[test]
fn test_region_thin_edge_removal() {
    let grid: Grid<char> = Grid::new(
        vec![
            ' ', ' ', 'x', ' ', ' ', ' ', ' ', 'x', ' ', 'x', 'x', 'x', 'x', 'x', 'x', ' ', 'x', 'x', 'x',
            ' ', ' ', ' ', 'x', ' ', ' ',
        ],
        5,
        5,
    );
    let mut region: GridRegion = grid.region_at_eq([2, 2]);
    region.remove_edge(1);

    assert_eq!(
        &region.grid().data,
        &[
            ' ', ' ', ' ', ' ', ' ', ' ', ' ', ' ', ' ', ' ', ' ', ' ', 'x', ' ', ' ', ' ', ' ', 'x', ' ',
            ' ', ' ', ' ', ' ', ' ', ' '
        ]
        .map(|c| c == 'x')
    );
}

#[test]
fn test_region_thick_edge_removal() {
    let grid: Grid<char> = Grid::new(vec!['x'; 25 * 25], 25, 25);
    let mut region: GridRegion = grid.region_at_eq([12, 12]);
    region.remove_edge(5);

    let validation_grid_data: Vec<bool> = (0..25)
        .map(|y| {
            if y < 5 || y > 19 {
                vec![false; 25]
            } else {
                [vec![false; 5], vec![true; 15], vec![false; 5]].into_iter().flatten().collect()
            }
        })
        .flatten()
        .collect();
    assert_eq!(&region.grid().data, &validation_grid_data);
    assert_eq!(region.bounds, [5, 5, 15, 15]);
}

#[test]
fn test_region_thin_edge_addition() {
    let grid: Grid<char> = Grid::new(
        vec![
            ' ', ' ', 'x', ' ', ' ', ' ', ' ', 'x', ' ', 'x', 'x', 'x', 'x', 'x', 'x', ' ', 'x', 'x', 'x',
            ' ', ' ', ' ', 'x', ' ', ' ',
        ],
        5,
        5,
    );
    let mut region: GridRegion = grid.region_at_eq([2, 2]);
    region.add_edge(1);

    assert_eq!(
        &region.grid().data,
        &[
            ' ', 'x', 'x', 'x', 'x', 'x', 'x', 'x', 'x', 'x', 'x', 'x', 'x', 'x', 'x', 'x', 'x', 'x', 'x',
            'x', ' ', 'x', 'x', 'x', ' '
        ]
        .map(|c| c == 'x')
    );
}

#[test]
fn test_region_thick_edge_addition() {
    let original_grid_data: Vec<bool> = (0..25)
        .map(|y| {
            if y < 5 || y > 19 {
                vec![false; 25]
            } else {
                [vec![false; 5], vec![true; 15], vec![false; 5]].into_iter().flatten().collect()
            }
        })
        .flatten()
        .collect();
    let validation_grid_data: Vec<bool> = (0..25)
        .map(|y| {
            let padding: usize = if y < 5 {
                5 - y
            } else if y > 19 {
                y - 19
            } else {
                0
            };
            [vec![false; padding], vec![true; 25 - 2 * padding], vec![false; padding]]
        })
        .flatten()
        .flatten()
        .collect();

    let grid: Grid<char> =
        Grid::new(original_grid_data.iter().map(|value| if *value { 'x' } else { ' ' }).collect(), 25, 25);
    let mut region: GridRegion = grid.region_at_eq([12, 12]);
    region.add_edge(5);

    assert_eq!(&region.grid().data, &validation_grid_data);
}

#[test]
fn test_region_edge_distance_map() {
    let grid: Grid<char> = Grid::new(
        (0..9)
            .map(|row_index| {
                if row_index > 0 && row_index < 7 {
                    vec![' ', ' ', 'x', 'x', 'x', 'x', 'x', ' ', ' ']
                } else {
                    vec![' '; 9]
                }
            })
            .flatten()
            .collect::<Vec<char>>(),
        9,
        9,
    );
    let region: GridRegion = grid.region_at_eq([2, 2]);
    let edge_map: Grid<usize> = region.to_edge_distance_map();
    let expected: Vec<usize> = vec![
        0, 0, 0, 0, 0, 0, 0, 0, 0, //
        0, 0, 1, 1, 1, 1, 1, 0, 0, //
        0, 0, 1, 2, 2, 2, 1, 0, 0, //
        0, 0, 1, 2, 3, 2, 1, 0, 0, //
        0, 0, 1, 2, 3, 2, 1, 0, 0, //
        0, 0, 1, 2, 2, 2, 1, 0, 0, //
        0, 0, 1, 1, 1, 1, 1, 0, 0, //
        0, 0, 0, 0, 0, 0, 0, 0, 0, //
        0, 0, 0, 0, 0, 0, 0, 0, 0,
    ];
    assert_eq!((edge_map.width(), edge_map.height()), (9, 9));
    assert_eq!(edge_map.data(), &expected);
}

#[test]
fn test_region_on_the_border_is_all_edge() {
    let mut region: GridRegion = GridRegion::new(Grid::new(vec![true; 4], 2, 2));
    let edges = region.find_edges();
    assert!(edges.iter().all(|edge| edge.negative_index.is_none()));
    region.remove_edge(1);
    assert_eq!(region.grid().data, vec![false; 4]);
    assert_eq!(region.bounds, [0, 0, 0, 0]);
}

#[test]
fn test_path_finding() {
    let maze: [&str; 5] = [" x   xxx x", "xxxx     x", "x    xx  x", "x xxx  xxx", "xxx xxxx  "];

    let grid: Grid<char> =
        Grid::new(maze.iter().map(|line| line.chars().collect::<Vec<char>>()).flatten().collect(), 10, 5);
    let path: Vec<[usize; 2]> = grid.find_path([1, 0], [9, 0]).unwrap();
    let mut compare_grid: Grid<char> = Grid::new(vec![' '; grid.width * grid.height], grid.width, grid.height);
    for index in &path {
        compare_grid.set(*index, 'x');
    }

    assert_eq!(
        path,
        vec![
            [1, 0],
            [1, 1],
            [0, 1],
            [0, 2],
            [0, 3],
            [0, 4],
            [1, 4],
            [2, 4],
            [2, 3],
            [3, 3],
            [4, 3],
            [4, 4],
            [5, 4],
            [6, 4],
            [7, 4],
            [7, 3],
            [8, 3],
            [9, 3],
            [9, 2],
            [9, 1],
            [9, 0]
        ]
    );
}

#[test]
fn test_path_errors() {
    let region: GridRegion =
        GridRegion::new(Grid::new(vec![true, false, true, true, false, true], 3, 2));
    assert_eq!(region.find_path(0usize, 1usize), Err(GridError::OutOfRegion));
    assert_eq!(region.find_path(1usize, 0usize), Err(GridError::OutOfRegion));
    assert_eq!(region.find_path(0usize, 2usize), Err(GridError::PathNotFound));
    assert_eq!(region.find_path(0usize, 3usize), Ok(vec![[0, 0], [0, 1]]));
    assert_eq!(region.find_path(5usize, 5usize), Ok(vec![[2, 1]]));
    let grid: Grid<u8> = Grid::new(vec![1, 2, 1], 3, 1);
    assert_eq!(grid.find_path(0usize, 2usize), Err(GridError::OutOfRegion));
}

#[test]
fn test_path_is_a_shortest_one() {
    let region: GridRegion = GridRegion::new(Grid::new(vec![true; 16], 4, 4));
    let path = region.find_path((0usize, 0usize), (3usize, 3usize)).unwrap();
    assert_eq!(path.len(), 7);
    assert_eq!(path[0], [0, 0]);
    assert_eq!(path[6], [3, 3]);
}

#[test]
fn test_region_indexing() {
    let region: GridRegion = GridRegion::new(Grid::new(vec![true, false, false, true], 2, 2));
    assert_eq!(region[0usize], true);
    assert_eq!(region[(1usize, 0usize)], false);
    assert_eq!(region[[1usize, 1usize]], true);
}
