use grid2d::Color;
use grid2d::ColorConvertible;
use grid2d::Grid;
use grid2d::GridError;
use image::ColorType;
use image::ImageEncoder;
use std::fmt::Debug;

const TEST_GRID_SIZE: [usize; 2] = [16, 8];
const TEST_DATA_SIZE: usize = TEST_GRID_SIZE[0] * TEST_GRID_SIZE[1];

#[test]
fn test_color() {
    let mut color: Color = Color(0x01234567);

    assert_eq!(color.0, 0x01234567);
    assert_eq!(color.a(), 0x01);
    assert_eq!(color.r(), 0x23);
    assert_eq!(color.g(), 0x45);
    assert_eq!(color.b(), 0x67);

    color.a_mut(0x89);
    color.r_mut(0xAB);
    color.g_mut(0xCD);
    color.b_mut(0xEF);

    assert_eq!(color.0, 0x89ABCDEF);
    assert_eq!(color.a(), 0x89);
    assert_eq!(color.r(), 0xAB);
    assert_eq!(color.g(), 0xCD);
    assert_eq!(color.b(), 0xEF);
}

#[test]
fn test_color_conversions() {
    assert_eq!(Color(0xFF102030).shade(), 0x20);
    assert_eq!(Color::default(), Color(0));
    assert_eq!(Color::new(0x11223344u32), Color(0x11223344));
    assert_eq!(Color::new(0x80u8), Color(0xFF808080));
    assert_eq!(Color::new(true), Color(0xFF00FF00));
    assert_eq!(Color::new(false), Color(0));
    assert_eq!(Color::new([1u8, 2, 3, 4]), Color(0x01020304));
    assert_eq!(Color::new(Color(7)), Color(7));
    assert_eq!(u8::from_color(Color(0xFF0A0B0F)), 12);
    assert_eq!(bool::from_color(Color(0x01000000)), true);
    assert_eq!(bool::from_color(Color(0)), false);
    assert_eq!(<[u8; 4]>::from_color(Color(0x01020304)), [1, 2, 3, 4]);
    assert_eq!(u32::from_color(Color(9)), 9);
}

#[test]
fn test_rgba_pixels() {
    let grid: Grid<u32> = Grid::new(vec![0x01020304, 0xAABBCCDD], 2, 1);
    assert_eq!(grid.to_rgba_pixels(), vec![[2, 3, 4, 1], [0xBB, 0xCC, 0xDD, 0xAA]]);
    let read: Grid<u32> = Grid::from_rgba_pixels(&vec![[2, 3, 4, 1], [0xBB, 0xCC, 0xDD, 0xAA]], 2, 1);
    assert_eq!(read, grid);
}

#[test]
fn test_grid_bmp_conversion_read_matches_write() {
    const SIZE: u8 = 0xF;
    let original_grid: Grid<Color> = Grid::new(
        (0..SIZE)
            .map(|y| {
                (0..SIZE)
                    .map(|x| {
                        Color::new(u32::from_be_bytes([
                            0xFF,
                            (0xFF * x as u16 / SIZE as u16) as u8,
                            0,
                            (0xFF * y as u16 / SIZE as u16) as u8,
                        ]))
                    })
                    .collect::<Vec<Color>>()
            })
            .flatten()
            .collect::<Vec<Color>>(),
        SIZE as usize,
        SIZE as usize,
    );

    let grid_as_bytes: Vec<u8> = original_grid.to_bmp_bytes();
    let validation_grid: Grid<Color> = Grid::from_bmp_bytes(grid_as_bytes).unwrap();

    assert_eq!(original_grid, validation_grid);
}

#[test]
fn test_exact_bmp_bytes() {
    let grid: Grid<u32> = Grid::new(vec![0x01020304, 0x05060708], 1, 2);
    let bytes: Vec<u8> = grid.to_bmp_bytes();
    let mut expected: Vec<u8> = vec![
        0x42, 0x4D, 62, 0, 0, 0, 0, 0, 0, 0, 54, 0, 0, 0, // file header
        40, 0, 0, 0, 1, 0, 0, 0, 0xFE, 0xFF, 0xFF, 0xFF, 1, 0, 32, 0, 0, 0, 0, 0, 80, 0, 0, 0, //
        0xE8, 0x03, 0, 0, 0xE8, 0x03, 0, 0, 0, 0, 0, 0, 0, 0, 0, 0,
    ];
    expected.extend([4, 3, 2, 1, 8, 7, 6, 5]);
    assert_eq!(bytes, expected);
}

#[test]
fn test_bmp_bottom_up_and_24_bits() {
    let mut bytes: Vec<u8> = vec![
        0x42, 0x4D, 0, 0, 0, 0, 0, 0, 0, 0, 54, 0, 0, 0, //
        40, 0, 0, 0, 1, 0, 0, 0, 2, 0, 0, 0, 1, 0, 24, 0, 0, 0, 0, 0, 0, 0, 0, 0, //
        0, 0, 0, 0, 0, 0, 0, 0, 0, 0, 0, 0, 0, 0, 0, 0,
    ];
    bytes.extend([3, 2, 1, 0]);
    bytes.extend([6, 5, 4, 0]);
    let grid: Grid<u32> = Grid::from_bmp_bytes(bytes).unwrap();
    assert_eq!((grid.width(), grid.height()), (1, 2));
    assert_eq!(grid.data(), &[0xFF040506, 0xFF010203]);
}

#[test]
fn test_malformed_bmp_bytes() {
    let good: Vec<u8> = Grid::<u32>::new(vec![1, 2], 2, 1).to_bmp_bytes();
    assert!(Grid::<u32>::from_bmp_bytes(good.clone()).is_ok());
    let mut wrong_signature: Vec<u8> = good.clone();
    wrong_signature[0] = 0x43;
    assert_eq!(Grid::<u32>::from_bmp_bytes(wrong_signature).err(), Some(GridError::Format));
    let mut wrong_header_size: Vec<u8> = good.clone();
    wrong_header_size[14] = 41;
    assert_eq!(Grid::<u32>::from_bmp_bytes(wrong_header_size).err(), Some(GridError::Format));
    let mut wrong_offset: Vec<u8> = good.clone();
    wrong_offset[10] = 55;
    assert_eq!(Grid::<u32>::from_bmp_bytes(wrong_offset).err(), Some(GridError::Format));
    let mut wrong_bits: Vec<u8> = good.clone();
    wrong_bits[28] = 16;
    assert_eq!(Grid::<u32>::from_bmp_bytes(wrong_bits).err(), Some(GridError::Format));
    let mut truncated: Vec<u8> = good.clone();
    truncated.pop();
    assert_eq!(Grid::<u32>::from_bmp_bytes(truncated).err(), Some(GridError::Format));
    assert_eq!(Grid::<u32>::from_bmp_bytes(vec![0x42, 0x4D]).err(), Some(GridError::Format));
}

fn through_png<T: ColorConvertible + PartialEq + Debug>(original_grid: Grid<T>) {
    let pixels: Vec<[u8; 4]> = original_grid.to_rgba_pixels();
    let raw: Vec<u8> = pixels.iter().flatten().copied().collect();
    let mut file: Vec<u8> = Vec::new();
    image::codecs::png::PngEncoder::new(&mut file)
        .write_image(&raw, original_grid.width() as u32, original_grid.height() as u32, ColorType::Rgba8)
        .unwrap();
    let read_image = image::load_from_memory(&file).unwrap().to_rgba8();
    let read_pixels: Vec<[u8; 4]> = read_image.pixels().map(|rgba| rgba.0).collect();
    let validation_grid: Grid<T> =
        Grid::from_rgba_pixels(&read_pixels, read_image.width() as usize, read_image.height() as usize);

    assert_eq!(original_grid, validation_grid);
}

#[test]
fn png_conversion_u_test_t_conversion_u32() {
    let start: u32 = u32::MIN;
    let end: u32 = u32::MAX;

    through_png::<u32>(Grid::new(
        (0..TEST_DATA_SIZE)
            .map(|index| ((index as f64 / TEST_DATA_SIZE as f64 * (end - start) as f64) + start as f64) as u32)
            .collect(),
        TEST_GRID_SIZE[0],
        TEST_GRID_SIZE[1],
    ));
}

#[test]
fn png_conversion_u_test_t_conversion_u8() {
    let start: u8 = u8::MIN;
    let end: u8 = u8::MAX;

    through_png::<u8>(Grid::new(
        (0..TEST_DATA_SIZE)
            .map(|index| ((index as f64 / TEST_DATA_SIZE as f64 * (end - start) as f64) + start as f64) as u8)
            .collect(),
        TEST_GRID_SIZE[0],
        TEST_GRID_SIZE[1],
    ));
}

#[test]
fn png_conversion_u_test_t_conversion_bool() {
    through_png::<bool>(Grid::new(
        (0..TEST_DATA_SIZE).map(|index| index % 6 == 0).collect(),
        TEST_GRID_SIZE[0],
        TEST_GRID_SIZE[1],
    ));
}

#[test]
fn test_t_conversion_4bytes() {
    let start: u32 = u32::MIN;
    let end: u32 = u32::MAX;

    through_png::<[u8; 4]>(Grid::new(
        (0..TEST_DATA_SIZE)
            .map(|index| ((index as f64 / TEST_DATA_SIZE as f64 * (end - start) as f64) + start as f64) as u32)
            .map(|color| color.to_be_bytes())
            .collect(),
        TEST_GRID_SIZE[0],
        TEST_GRID_SIZE[1],
    ));
}
