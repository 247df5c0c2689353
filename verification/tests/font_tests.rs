use grid2d::font::drawing::layout_text;
use grid2d::font::drawing::text_lines;
use grid2d::font::glyphs::parse_glyph;
use grid2d::ContourPoint;
use grid2d::Font;
use grid2d::Grid;
use grid2d::GridError;

fn word(value: u16) -> [u8; 2] {
    value.to_be_bytes()
}

fn long(value: u32) -> [u8; 4] {
    value.to_be_bytes()
}

fn head_table() -> Vec<u8> {
    let mut table: Vec<u8> = vec![0; 38];
    table[18..20].copy_from_slice(&word(1000));
    table[36..38].copy_from_slice(&word(0));
    table
}

fn maxp_table() -> Vec<u8> {
    let mut table: Vec<u8> = vec![0; 4];
    table.extend(word(2));
    table
}

fn loca_table() -> Vec<u8> {
    [word(0), word(0), word(10)].concat()
}

fn cmap_table() -> Vec<u8> {
    let mut table: Vec<u8> = Vec::new();
    table.extend(word(0));
    table.extend(word(1));
    table.extend(word(3));
    table.extend(word(1));
    table.extend(long(12));
    table.extend(word(4));
    table.extend(word(32));
    table.extend(word(0));
    table.extend(word(4));
    table.extend([0; 6]);
    table.extend(word(0x41));
    table.extend(word(0xFFFF));
    table.extend(word(0));
    table.extend(word(0x41));
    table.extend(word(0xFFFF));
    table.extend((1i16 - 0x41).to_be_bytes());
    table.extend(1i16.to_be_bytes());
    table.extend(word(0));
    table.extend(word(0));
    table
}

fn triangle_glyph() -> Vec<u8> {
    let mut glyph: Vec<u8> = Vec::new();
    glyph.extend(1i16.to_be_bytes());
    glyph.extend([0; 8]);
    glyph.extend(word(2));
    glyph.extend(word(0));
    glyph.extend([0x31, 0x33, 0x27]);
    glyph.extend([100, 50]);
    glyph.extend([80]);
    glyph
}

fn glyf_table() -> Vec<u8> {
    let mut table: Vec<u8> = triangle_glyph();
    table.extend([0; 20]);
    table
}

fn font_file() -> Vec<u8> {
    let tables: Vec<(&str, Vec<u8>)> = vec![
        ("glyf", glyf_table()),
        ("cmap", cmap_table()),
        ("head", head_table()),
        ("loca", loca_table()),
        ("maxp", maxp_table()),
    ];
    let mut file: Vec<u8> = Vec::new();
    file.extend(long(0x00010000));
    file.extend(word(tables.len() as u16));
    file.extend([0; 6]);
    let mut address: usize = 12 + 16 * tables.len();
    for (tag, table) in &tables {
        file.extend(tag.as_bytes());
        file.extend(long(0));
        file.extend(long(address as u32));
        file.extend(long(table.len() as u32));
        address += table.len();
    }
    for (_, table) in &tables {
        file.extend(table);
    }
    file
}

#[test]
fn test_font_from_bytes() {
    let font: Font = Font::new(&font_file()).unwrap();
    assert_eq!(font.units_per_em, 1000);
    assert_eq!(font.encoders.len(), 1);
    assert_eq!(font.encoders[0].start_codes, vec![0x41, 0xFFFF]);
    assert_eq!(font.encoders[0].end_codes, vec![0x41, 0xFFFF]);
    assert_eq!(font.encoders[0].id_deltas, vec![-0x40, 1]);
    assert_eq!(font.encoders[0].id_range_offsets, vec![0, 0]);
    assert_eq!(font.encoders[0].glyph_id_array, Vec::<u16>::new());
    assert_eq!(font.glyph_id('A'), 1);
    assert_eq!(font.glyph_id('B'), 0);
    assert_eq!(font.contours.len(), 1);
    assert_eq!(font.contours[0].0, 1);
    assert_eq!(
        font.contours[0].1,
        vec![vec![
            ContourPoint { x: 0, y: 0, on_curve: true },
            ContourPoint { x: 100, y: 0, on_curve: true },
            ContourPoint { x: 50, y: 80, on_curve: true },
        ]]
    );
    assert_eq!(font.glyph_contours(1), Some(&font.contours[0].1));
    assert_eq!(font.glyph_contours(0), None);
}

#[test]
fn test_font_from_malformed_bytes() {
    let good: Vec<u8> = font_file();
    assert_eq!(Font::new(&good[..10]).err(), Some(GridError::Format));
    let mut wrong_version: Vec<u8> = good.clone();
    wrong_version[3] = 1;
    assert_eq!(Font::new(&wrong_version).err(), Some(GridError::Format));
    assert_eq!(Font::new(&good[..good.len() - 15]).err(), Some(GridError::Format));
    let mut table_outside: Vec<u8> = good.clone();
    table_outside[12 + 12] = 0xFF;
    assert_eq!(Font::new(&table_outside).err(), Some(GridError::Format));
}

#[test]
fn test_glyph_with_repeated_flags_and_two_contours() {
    let mut glyph: Vec<u8> = Vec::new();
    glyph.extend(2i16.to_be_bytes());
    glyph.extend([0; 8]);
    glyph.extend(word(1));
    glyph.extend(word(3));
    glyph.extend(word(2));
    glyph.extend([9, 9]);
    glyph.extend([0x08, 3]);
    glyph.extend(5i16.to_be_bytes());
    glyph.extend((-2i16).to_be_bytes());
    glyph.extend(0i16.to_be_bytes());
    glyph.extend(1i16.to_be_bytes());
    glyph.extend(1i16.to_be_bytes());
    glyph.extend(1i16.to_be_bytes());
    glyph.extend(1i16.to_be_bytes());
    glyph.extend((-4i16).to_be_bytes());
    let contours = parse_glyph(&glyph).unwrap().unwrap();
    assert_eq!(
        contours,
        vec![
            vec![
                ContourPoint { x: 5, y: 1, on_curve: false },
                ContourPoint { x: 3, y: 2, on_curve: false }
            ],
            vec![
                ContourPoint { x: 3, y: 3, on_curve: false },
                ContourPoint { x: 4, y: -1, on_curve: false }
            ],
        ]
    );
    assert_eq!(parse_glyph(&[0xFF, 0xFF, 0, 0, 0, 0, 0, 0, 0, 0]), Ok(None));
    assert_eq!(parse_glyph(&[0, 1, 0, 0]), Err(GridError::Format));
    assert_eq!(parse_glyph(&glyph[..glyph.len() - 1]), Err(GridError::Format));
}

#[test]
fn test_text_lines() {
    assert_eq!(text_lines("ab\nc"), vec![vec!['a', 'b'], vec!['c']]);
    assert_eq!(text_lines(""), vec![Vec::<char>::new()]);
    assert_eq!(text_lines("a\n"), vec![vec!['a'], vec![]]);
}

#[test]
fn test_layout_text() {
    let lines: Vec<Vec<char>> = text_lines("ab\nc");
    let layout: Grid<Grid<bool>> = layout_text(&lines, |character| {
        Grid::new(vec![character == 'a'; 4], 2, 2)
    });
    assert_eq!((layout.width(), layout.height()), (2, 2));
    assert_eq!(layout.data()[0].data(), &[true; 4]);
    assert_eq!(layout.data()[1].data(), &[false; 4]);
    assert_eq!(layout.data()[2].data(), &[false; 4]);
    assert_eq!(layout.data()[3].len(), 0);
    let flat: Grid<bool> = layout.flatten_grid();
    assert_eq!((flat.width(), flat.height()), (4, 4));
}

#[test]
fn test_fill_span() {
    let mut grid: Grid<bool> = Grid::new(vec![false; 12], 4, 3);
    grid.fill_span(1, -2, 2);
    grid.fill_span(2, 3, 9);
    grid.fill_span(0, 2, 1);
    assert_eq!(
        grid.data(),
        &[false, false, false, false, true, true, false, false, false, false, false, true]
    );
}
