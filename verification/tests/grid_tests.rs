use grid2d::Grid;

#[test]
fn test_grid_properties() {
    let grid: Grid<char> = Grid::new(vec!['x', 'x', 'x', ' ', ' ', ' ', '1', '2', '3'], 3, 3);

    assert_eq!([grid.width, grid.height], [3; 2]);
    assert_eq!([grid.width(), grid.height()], [3; 2]);
    assert_eq!(grid.data(), &['x', 'x', 'x', ' ', ' ', ' ', '1', '2', '3']);
    assert_eq!(&grid.data_2d(), &[['x', 'x', 'x'], [' ', ' ', ' '], ['1', '2', '3']]);
    assert_eq!(grid.len(), 9);
    assert_eq!(grid.is_empty(), false);
}

#[test]
fn test_checkers_board() {
    let grid: Grid<char> = Grid::<char>::checkers_board(9, 3, 'x', ' ');

    let even: [char; 27] = [
        'x', 'x', 'x', ' ', ' ', ' ', 'x', 'x', 'x', ' ', ' ', ' ', 'x', 'x', 'x', ' ', ' ', ' ', 'x', 'x',
        'x', ' ', ' ', ' ', 'x', 'x', 'x',
    ];
    let odd: [char; 27] = [
        ' ', ' ', ' ', 'x', 'x', 'x', ' ', ' ', ' ', 'x', 'x', 'x', ' ', ' ', ' ', 'x', 'x', 'x', ' ', ' ',
        ' ', 'x', 'x', 'x', ' ', ' ', ' ',
    ];
    assert_eq!([grid.width, grid.height], [9 * 3; 2]);
    assert_eq!(grid.data_2d()[0], even);
    assert_eq!(grid.data_2d()[1], even);
    assert_eq!(grid.data_2d()[2], even);
    assert_eq!(grid.data_2d()[3], odd);
    assert_eq!(grid.data_2d()[4], odd);
    assert_eq!(grid.data_2d()[5], odd);
    assert_eq!(grid.data_2d()[6], even);
    assert_eq!(grid.data_2d()[7], even);
    assert_eq!(grid.data_2d()[8], even);
}

#[test]
fn test_empty_and_default_grids() {
    let empty: Grid<u8> = Grid::empty();
    assert_eq!((empty.width(), empty.height(), empty.len()), (0, 0, 0));
    assert!(empty.is_empty());
    let default: Grid<u8> = Grid::default();
    assert_eq!(empty, default);
}

#[test]
fn test_new_2d_flattens_rows() {
    let grid: Grid<u8> = Grid::new_2d(vec![vec![1, 2], vec![3, 4], vec![5, 6]], 2, 3);
    assert_eq!(grid.data(), &[1, 2, 3, 4, 5, 6]);
    assert_eq!((grid.width(), grid.height()), (2, 3));
}

#[test]
fn test_data_2d_short_last_row() {
    let grid: Grid<u8> = Grid::new(vec![1, 2, 3, 4, 5], 2, 3);
    let rows = grid.data_2d();
    assert_eq!(rows.len(), 3);
    assert_eq!(rows[2], [5]);
}

#[test]
fn test_data_mut_changes_cells() {
    let mut grid: Grid<u8> = Grid::new(vec![1, 2, 3, 4], 2, 2);
    grid.data_mut()[3] = 9;
    assert_eq!(grid.data(), &[1, 2, 3, 9]);
}

#[test]
fn test_equality_compares_sizes() {
    let wide: Grid<u8> = Grid::new(vec![1, 2, 3, 4, 5, 6], 3, 2);
    let tall: Grid<u8> = Grid::new(vec![1, 2, 3, 4, 5, 6], 2, 3);
    let same: Grid<u8> = Grid::new(vec![1, 2, 3, 4, 5, 6], 3, 2);
    assert!(wide != tall);
    assert!(wide == same);
    assert_eq!(wide.clone(), same);
}

#[test]
fn test_conversion() {
    let int_grid: Grid<i32> = Grid::new((0..10).collect(), 10, 10);
    let float_grid: Grid<f32> = int_grid.clone().map(|int| int as f32 / 2.0);

    assert_eq!([int_grid.width, int_grid.height], [float_grid.width, float_grid.height]);
    assert_eq!(int_grid.data(), &[0, 1, 2, 3, 4, 5, 6, 7, 8, 9]);
    assert_eq!(float_grid.data(), &[0.0, 0.5, 1.0, 1.5, 2.0, 2.5, 3.0, 3.5, 4.0, 4.5]);
    assert_eq!(int_grid, float_grid.map(|float| (float * 2.0) as i32));
}

#[test]
fn test_map_ref_keeps_source() {
    let grid: Grid<u8> = Grid::new(vec![1, 2, 3, 4], 2, 2);
    let doubled: Grid<u16> = grid.map_ref(|value| *value as u16 * 2);
    assert_eq!(doubled.data(), &[2, 4, 6, 8]);
    assert_eq!(grid.data(), &[1, 2, 3, 4]);
    assert_eq!((doubled.width(), doubled.height()), (2, 2));
}

#[test]
fn test_grid_indexers() {
    let grid: Grid<[usize; 2]> = Grid::new_2d(
        (0..10).map(|y| (0..10).map(|x| [x, y]).collect::<Vec<[usize; 2]>>()).collect(),
        10,
        10,
    );

    for y in 0..10 {
        for x in 0..10 {
            let index: usize = grid.xy_to_index(x, y);

            assert_eq!(grid.xy_is_valid(x, y), true);
            assert_eq!(grid[(x, y)], [x, y]);
            assert_eq!(grid[index], [x, y]);
        }
    }

    assert_eq!(grid.xy_is_valid(10, 0), false);
    assert_eq!(grid.xy_is_valid(0, 10), false);
    assert_eq!(grid.xy_is_valid(10, 10), false);
    assert_eq!(grid.xy_is_valid(10, 100), false);
}

#[test]
fn test_index_round_trip() {
    let grid: Grid<u8> = Grid::new(vec![0; 12], 4, 3);
    for y in 0..3 {
        for x in 0..4 {
            assert_eq!(grid.index_to_xy(grid.xy_to_index(x, y)), [x, y]);
        }
    }
    assert_eq!(grid.xy_to_index(3, 2), 11);
    assert_eq!(grid.index_to_xy(7), [3, 1]);
    assert!(grid.index_is_valid(11));
    assert!(!grid.index_is_valid(12));
}

#[test]
fn test_index_neighbors() {
    let grid: Grid<u8> = Grid::new(vec![0; 9], 3, 3);
    assert_eq!(grid.index_neighbors(4usize), vec![3, 1, 5, 7]);
    assert_eq!(grid.index_neighbors(0usize), vec![1, 3]);
    assert_eq!(grid.index_neighbors(3usize), vec![0, 4, 6]);
    assert_eq!(grid.index_neighbors((2usize, 2usize)), vec![7, 5]);
    assert_eq!(grid.index_neighbors([1usize, 0usize]), vec![0, 2, 4]);
}

#[test]
fn test_set_and_get_mut() {
    let mut grid: Grid<u8> = Grid::new(vec![0; 6], 3, 2);
    grid.set((2usize, 1usize), 7);
    *grid.get_mut(0usize) = 1;
    *grid.get_mut([1usize, 1usize]) = 4;
    assert_eq!(grid.data(), &[1, 0, 0, 0, 4, 7]);
}

#[test]
fn test_grid_iterator() {
    let grid: Grid<usize> = Grid::new((0..9).collect(), 3, 3);

    for (index, item) in grid.into_iter().enumerate() {
        assert_eq!(index, item);
    }
}

#[test]
fn test_grid_iterator_mut() {
    let mut grid: Grid<usize> = Grid::new((0..9).collect(), 3, 3);

    for entry in grid.data_mut() {
        *entry *= 2;
    }

    assert_eq!(grid.data, vec![0, 2, 4, 6, 8, 10, 12, 14, 16]);
}

#[test]
fn test_grid_iterator_by_reference() {
    let grid: Grid<usize> = Grid::new((0..9).collect(), 3, 3);
    let mut sum: usize = 0;
    for item in &grid {
        sum += *item;
    }
    assert_eq!(sum, 36);
}

#[test]
fn test_grid_iterator_pixel() {
    let grid: Grid<char> = Grid::checkers_board(3, 1, 'x', ' ');

    let mut count: usize = 0;
    let mut counter = grid.pixel_iterator();
    while counter.next().is_some() {
        count += 1;
    }
    assert_eq!(count, grid.width * grid.height);
    let mut iterator = grid.pixel_iterator();
    let mut index: usize = 0;
    while let Some((entry_x, entry_y, entry_item)) = iterator.next() {
        let expected: char = if index % 2 == 0 { 'x' } else { ' ' };

        assert_eq!(entry_x, index % grid.width);
        assert_eq!(entry_y, index / grid.width);
        assert_eq!(*entry_item, expected);
        assert_eq!(grid[(entry_x, entry_y)], expected);
        index += 1;
    }
    assert_eq!(index, 9);
}

#[test]
fn test_grid_iterator_pixel_mut() {
    let mut grid: Grid<char> = Grid::checkers_board(3, 1, 'x', ' ');

    let mut iterator = grid.pixel_iterator_mut();
    while let Some((entry_x, entry_y, entry_item)) = iterator.next() {
        if entry_x < 2 && entry_y < 2 {
            *entry_item = 'o';
        }
    }

    assert_eq!(grid.data(), &['o', 'o', 'x', 'o', 'o', ' ', 'x', ' ', 'x']);
}

#[test]
fn test_sub_grid_size_and_data() {
    let grid: Grid<i32> = Grid::new(vec![0, 1, 2, 3, 4, 5, 6, 7, 8], 3, 3);
    let sub_grid: Grid<&i32> = grid.sub_grid([0, 0, 2, 2]);

    assert_eq!(sub_grid.width, 2);
    assert_eq!(sub_grid.height, 2);
    assert_eq!(sub_grid.data, vec![&0, &1, &3, &4]);
}

#[test]
fn test_full_sub_grid_size_and_data() {
    let grid: Grid<i32> = Grid::new(vec![0, 1, 2, 3, 4, 5, 6, 7, 8], 3, 3);
    let sub_grid: Grid<&i32> = grid.full_sub_grid();

    assert_eq!(sub_grid.width, 3);
    assert_eq!(sub_grid.height, 3);
    assert_eq!(sub_grid.data, grid.data.iter().collect::<Vec<&i32>>());
}

#[test]
fn test_cloned_sub_grid_size_and_data() {
    let grid: Grid<i32> = Grid::new(vec![0, 1, 2, 3, 4, 5, 6, 7, 8], 3, 3);
    let sub_grid: Grid<i32> = grid.take([1, 1, 2, 2]);

    assert_eq!(sub_grid.width, 2);
    assert_eq!(sub_grid.height, 2);
    assert_eq!(sub_grid.data, vec![4, 5, 7, 8]);
}

#[test]
fn test_sub_grid_is_cut_at_the_border() {
    let grid: Grid<i32> = Grid::new(vec![0, 1, 2, 3, 4, 5, 6, 7, 8], 3, 3);
    let sub_grid: Grid<&i32> = grid.sub_grid([2, 1, 5, 5]);
    assert_eq!((sub_grid.width, sub_grid.height), (1, 2));
    assert_eq!(sub_grid.data, vec![&5, &8]);
    let outside: Grid<&i32> = grid.sub_grid([4, 4, 2, 2]);
    assert_eq!(outside.data.len(), 0);
}

#[test]
fn test_append() {
    let mut original_grid: Grid<i32> = Grid::new(vec![0; 25], 5, 5);
    let appending_grid: Grid<i32> = Grid::new(vec![2; 4], 2, 2);
    original_grid.append(&appending_grid);

    assert_eq!([original_grid.width, original_grid.height], [5, 5]);
    assert_eq!(
        original_grid.data(),
        &[2, 2, 0, 0, 0, 2, 2, 0, 0, 0, 0, 0, 0, 0, 0, 0, 0, 0, 0, 0, 0, 0, 0, 0, 0]
    );
}

#[test]
fn test_append_at() {
    let mut original_grid: Grid<i32> = Grid::new(vec![0; 25], 5, 5);
    let appending_grid: Grid<i32> = Grid::new(vec![2; 4], 2, 2);
    original_grid.append_at(&appending_grid, (1, 2));

    assert_eq!([original_grid.width, original_grid.height], [5, 5]);
    assert_eq!(
        original_grid.data(),
        &[0, 0, 0, 0, 0, 0, 0, 0, 0, 0, 0, 2, 2, 0, 0, 0, 2, 2, 0, 0, 0, 0, 0, 0, 0]
    );
}

#[test]
fn test_append_at_overflow() {
    let mut original_grid: Grid<i32> = Grid::new(vec![0; 25], 5, 5);
    let appending_grid: Grid<i32> = Grid::new(vec![2; 4], 2, 2);
    original_grid.append_at(&appending_grid, (4, 4));

    assert_eq!([original_grid.width, original_grid.height], [5, 5]);
    assert_eq!(
        original_grid.data(),
        &[0, 0, 0, 0, 0, 0, 0, 0, 0, 0, 0, 0, 0, 0, 0, 0, 0, 0, 0, 0, 0, 0, 0, 0, 2]
    );
}

#[test]
fn test_rasterize() {
    let original_grid: Grid<Grid<i32>> =
        Grid::new((0..9).map(|index| Grid::new(vec![index; 4], 2, 2)).collect(), 3, 3);
    let flattened_grid: Grid<i32> = original_grid.flatten_grid();

    assert_eq!(flattened_grid.width, 6);
    assert_eq!(flattened_grid.height, 6);
    assert_eq!(
        flattened_grid.data_2d(),
        [
            [0, 0, 1, 1, 2, 2],
            [0, 0, 1, 1, 2, 2],
            [3, 3, 4, 4, 5, 5],
            [3, 3, 4, 4, 5, 5],
            [6, 6, 7, 7, 8, 8],
            [6, 6, 7, 7, 8, 8]
        ]
    );
}

#[test]
fn test_rasterize_mismatched_sizes() {
    let original_grid: Grid<Grid<i32>> = Grid::new(
        vec![
            Grid::new(vec![1; 9], 3, 3),
            Grid::new(vec![2; 6], 3, 2),
            Grid::new(vec![3; 2], 2, 1),
            Grid::new(vec![4; 9], 3, 3),
        ],
        2,
        2,
    );
    let flattened_grid: Grid<i32> = original_grid.flatten_grid();

    assert_eq!(flattened_grid.width, 6);
    assert_eq!(flattened_grid.height, 6);
    assert_eq!(
        flattened_grid.data_2d(),
        [
            [1, 1, 1, 2, 2, 2],
            [1, 1, 1, 2, 2, 2],
            [1, 1, 1, 0, 0, 0],
            [3, 3, 0, 4, 4, 4],
            [0, 0, 0, 4, 4, 4],
            [0, 0, 0, 4, 4, 4]
        ]
    );
}

#[test]
fn test_rasterize_empty_grids() {
    let empty: Grid<Grid<i32>> = Grid::new(vec![Grid::empty(), Grid::empty()], 2, 1);
    let flattened: Grid<i32> = empty.flatten_grid();
    assert_eq!((flattened.width(), flattened.height(), flattened.len()), (0, 0, 0));
    let mixed: Grid<Grid<i32>> = Grid::new(vec![Grid::empty(), Grid::new(vec![5], 1, 1)], 2, 1);
    assert_eq!(mixed.flatten_grid().data(), &[5]);
}

#[test]
fn test_out_of_bounds_access() {
    let mut grid: Grid<u8> = Grid::new(vec![1, 2, 3, 4, 5, 6], 3, 2);
    assert_eq!(grid.try_get(5usize), Ok(&6));
    assert_eq!(grid.try_get(6usize), Err(grid2d::GridError::OutOfBounds));
    assert_eq!(grid.try_get((2usize, 1usize)), Ok(&6));
    assert_eq!(grid.try_get_xy(2, 1), Ok(&6));
    assert_eq!(grid.try_get_xy(3, 0), Err(grid2d::GridError::OutOfBounds));
    assert_eq!(grid.try_get_xy(0, 2), Err(grid2d::GridError::OutOfBounds));
    assert_eq!(grid.try_set(1usize, 9), Ok(()));
    assert_eq!(grid.try_set(7usize, 9), Err(grid2d::GridError::OutOfBounds));
    assert_eq!(grid.try_set_xy(0, 1, 8), Ok(()));
    assert_eq!(grid.try_set_xy(3, 1, 8), Err(grid2d::GridError::OutOfBounds));
    assert_eq!(grid.data(), &[1, 9, 3, 8, 5, 6]);
}

#[test]
fn test_try_new_checks_the_length() {
    assert!(Grid::try_new(vec![1u8, 2, 3, 4, 5, 6], 3, 2).is_ok());
    assert_eq!(Grid::try_new(vec![1u8, 2, 3, 4, 5], 3, 2).err(), Some(grid2d::GridError::OutOfBounds));
    assert_eq!(Grid::try_new(vec![1u8], 0, 5).err(), Some(grid2d::GridError::OutOfBounds));
    assert!(Grid::try_new(Vec::<u8>::new(), 0, 5).is_ok());
    assert_eq!(Grid::try_new(vec![1u8, 2, 3, 4], 3, 1).err(), Some(grid2d::GridError::OutOfBounds));
}

#[test]
fn test_range_indexing() {
    let grid: Grid<u8> = Grid::new(vec![1, 2, 3, 4, 5, 6], 3, 2);
    assert_eq!(&grid[1usize..4usize], &[2, 3, 4]);
    assert_eq!(&grid[(0usize, 1usize)..(2usize, 1usize)], &[4, 5]);
    assert_eq!(&grid[2usize..2usize], &[] as &[u8]);
}
