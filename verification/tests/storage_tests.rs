use grid2d::ByteConversion;
use grid2d::Grid;
use grid2d::GridError;
use std::fmt::Debug;

const TEST_GRID_SIZE: [usize; 2] = [16, 8];
const TEST_DATA_SIZE: usize = TEST_GRID_SIZE[0] * TEST_GRID_SIZE[1];

fn check_grid<T: ByteConversion + PartialEq + Debug>(original_grid: Grid<T>) {
    let bytes: Vec<u8> = original_grid.to_bytes();
    let validation_grid: Grid<T> = Grid::from_bytes(&bytes).unwrap();

    assert_eq!(original_grid, validation_grid);
}

fn int_grid<T>(max_shift: usize, power: fn(usize) -> T) -> Grid<T> {
    Grid::new(
        (0..TEST_DATA_SIZE)
            .map(|index| power((index as f32 / TEST_DATA_SIZE as f32 * max_shift as f32) as usize))
            .collect(),
        TEST_GRID_SIZE[0],
        TEST_GRID_SIZE[1],
    )
}

#[test]
fn file_conversion_u_test_t_conversion_u8() {
    check_grid::<u8>(int_grid(8, |shift| 1 << shift));
}

#[test]
fn test_t_conversion_u16() {
    check_grid::<u16>(int_grid(2 * 8, |shift| 1 << shift));
}

#[test]
fn file_conversion_u_test_t_conversion_u32() {
    check_grid::<u32>(int_grid(4 * 8, |shift| 1 << shift));
}

#[test]
fn test_t_conversion_u64() {
    check_grid::<u64>(int_grid(8 * 8, |shift| 1 << shift));
}

#[test]
fn test_t_conversion_u128() {
    check_grid::<u128>(int_grid(16 * 8, |shift| 1 << shift));
}

#[test]
fn test_t_conversion_i8() {
    check_grid::<i8>(int_grid(8, |shift| 1 << shift));
}

#[test]
fn test_t_conversion_i16() {
    check_grid::<i16>(int_grid(2 * 8, |shift| 1 << shift));
}

#[test]
fn test_t_conversion_i32() {
    check_grid::<i32>(int_grid(4 * 8, |shift| 1 << shift));
}

#[test]
fn test_t_conversion_i64() {
    check_grid::<i64>(int_grid(8 * 8, |shift| 1 << shift));
}

#[test]
fn test_t_conversion_i128() {
    check_grid::<i128>(int_grid(16 * 8, |shift| 1 << shift));
}

#[test]
fn test_t_conversion_f32() {
    let start: f32 = -1000000.0;
    let end: f32 = 1000000.0;

    let original: Vec<f32> = (0..TEST_DATA_SIZE)
        .map(|index| (index as f32 / TEST_DATA_SIZE as f32 * (end - start)) + start)
        .collect();
    let grid: Grid<u32> =
        Grid::new(original.iter().map(|value| value.to_bits()).collect(), TEST_GRID_SIZE[0], TEST_GRID_SIZE[1]);
    let validation: Grid<u32> = Grid::from_bytes(&grid.to_bytes()).unwrap();
    let read: Vec<f32> = validation.data().iter().map(|bits| f32::from_bits(*bits)).collect();
    assert_eq!(original, read);
    assert_eq!((validation.width(), validation.height()), (16, 8));
}

#[test]
fn test_t_conversion_f64() {
    let start: f64 = -10000000000.0;
    let end: f64 = 10000000000.0;

    let original: Vec<f64> = (0..TEST_DATA_SIZE)
        .map(|index| (index as f64 / TEST_DATA_SIZE as f64 * (end - start)) + start)
        .collect();
    let grid: Grid<u64> =
        Grid::new(original.iter().map(|value| value.to_bits()).collect(), TEST_GRID_SIZE[0], TEST_GRID_SIZE[1]);
    let validation: Grid<u64> = Grid::from_bytes(&grid.to_bytes()).unwrap();
    let read: Vec<f64> = validation.data().iter().map(|bits| f64::from_bits(*bits)).collect();
    assert_eq!(original, read);
    assert_eq!((validation.width(), validation.height()), (16, 8));
}

#[test]
fn file_conversion_u_test_t_conversion_bool() {
    check_grid::<bool>(Grid::new(
        (0..TEST_DATA_SIZE).map(|index| index % 3 == 0 && index % 8 != 0).collect(),
        TEST_GRID_SIZE[0],
        TEST_GRID_SIZE[1],
    ));
}

#[test]
fn test_t_conversion_string() {
    const EXAMPLE_STR: &str = "QWERTYUIOPASDFGHJKLZXCVBNM";

    check_grid::<String>(Grid::new(
        (0..TEST_DATA_SIZE)
            .map(|index| {
                EXAMPLE_STR.split_at((index as f32 / TEST_DATA_SIZE as f32 * 22.0) as usize).1.to_string()
            })
            .collect(),
        TEST_GRID_SIZE[0],
        TEST_GRID_SIZE[1],
    ));
}

#[test]
fn test_t_conversion_array() {
    const MAX_SHIFT: usize = 16;
    const ARRAY_SIZE: usize = 3;

    let original_grid: Grid<[u16; ARRAY_SIZE]> = Grid::new(
        (0..TEST_DATA_SIZE)
            .map(|index| [1 << (index as f32 / TEST_DATA_SIZE as f32 * MAX_SHIFT as f32) as u16, 900, 20])
            .collect(),
        TEST_GRID_SIZE[0],
        TEST_GRID_SIZE[1],
    );
    let bytes: Vec<u8> = original_grid.to_bytes();
    let validation_grid: Grid<[u16; ARRAY_SIZE]> = Grid::from_bytes(&bytes).unwrap();

    assert_eq!(original_grid, validation_grid);
}

#[test]
fn test_t_conversion_list() {
    const MAX_SHIFT: usize = 16;

    let original_grid: Grid<Vec<u16>> = Grid::new(
        (0..TEST_DATA_SIZE)
            .map(|index| vec![1 << (index as f32 / TEST_DATA_SIZE as f32 * MAX_SHIFT as f32) as u16, 900, 20])
            .collect(),
        TEST_GRID_SIZE[0],
        TEST_GRID_SIZE[1],
    );
    let bytes: Vec<u8> = original_grid.to_bytes();
    let validation_grid: Grid<Vec<u16>> = Grid::from_bytes(&bytes).unwrap();

    assert_eq!(original_grid, validation_grid);
}

#[test]
fn test_exact_bytes_of_a_grid() {
    let grid: Grid<u8> = Grid::new(vec![7, 8, 9, 10, 11, 12], 3, 2);
    assert_eq!(grid.to_bytes(), vec![0, 0, 0, 3, 0, 0, 0, 2, 0, 0, 0, 6, 7, 8, 9, 10, 11, 12]);
    let read: Grid<u8> = Grid::from_bytes(&[0, 0, 0, 1, 0, 0, 0, 2, 0, 0, 0, 2, 4, 5]).unwrap();
    assert_eq!((read.width(), read.height()), (1, 2));
    assert_eq!(read.data(), &[4, 5]);
}

#[test]
fn test_malformed_grid_bytes() {
    assert_eq!(Grid::<u8>::from_bytes(&[0, 0, 0, 1]).err(), Some(GridError::Format));
    assert_eq!(Grid::<u8>::from_bytes(&[0, 0, 0, 1, 0, 0, 0, 1]).err(), Some(GridError::Format));
    assert_eq!(
        Grid::<u8>::from_bytes(&[0, 0, 0, 1, 0, 0, 0, 1, 0, 0, 0, 2, 5]).err(),
        Some(GridError::Format)
    );
    assert_eq!(
        Grid::<u16>::from_bytes(&[0, 0, 0, 1, 0, 0, 0, 1, 0, 0, 0, 1, 5, 6, 7]).err(),
        Some(GridError::Format)
    );
}
