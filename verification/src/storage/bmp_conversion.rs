use vstd::prelude::*;
use crate::color::Color;
use crate::color::ColorConvertible;
use crate::color::alpha_of;
use crate::color::lemma_parts_packed;
use crate::color::blue_of;
use crate::color::green_of;
use crate::color::pack;
use crate::color::packed;
use crate::color::red_of;
use crate::errors::GridError;
use crate::grid::Grid;
use crate::indexer::lemma_index_round_trip;
use crate::indexer::linear_index;
use crate::storage::big_endian::from_twos_complement;
use crate::storage::big_endian::lemma_pow256_values;
use crate::storage::big_endian::twos_complement;
use crate::storage::byte_cursor::ByteCursor;
use crate::storage::little_endian::le_bytes;
use crate::storage::little_endian::le_value;
use crate::storage::little_endian::lemma_le_round_trip;
use crate::storage::little_endian::unsigned_to_le_bytes;

verus! {

/// The number of bytes of the file header of a bitmap file.
pub const BMP_FILE_HEADER_SIZE: u32 = 14;

/// The number of bytes of the info header of a bitmap file.
pub const BMP_INFO_HEADER_SIZE: u32 = 40;

/// The number that `size` bytes at a place of a bitmap file stand for.
pub open spec fn bmp_field(bytes: Seq<u8>, at: int, size: int) -> nat {
    le_value(bytes.subrange(at, at + size))
}

/// The width of the image that a bitmap file holds.
pub open spec fn bmp_width(bytes: Seq<u8>) -> nat {
    bmp_field(bytes, 18, 4)
}

/// The height of the image as the file states it: negative when the rows
/// run from the top down.
pub open spec fn bmp_signed_height(bytes: Seq<u8>) -> int {
    from_twos_complement(bmp_field(bytes, 22, 4), 4)
}

/// The height of the image that a bitmap file holds.
pub open spec fn bmp_height(bytes: Seq<u8>) -> nat {
    if bmp_signed_height(bytes) < 0 {
        (-bmp_signed_height(bytes)) as nat
    } else {
        bmp_signed_height(bytes) as nat
    }
}

/// The number of bits that the file takes for a pixel.
pub open spec fn bmp_bits(bytes: Seq<u8>) -> nat {
    bmp_field(bytes, 28, 2)
}

/// The number of bytes from the start of a row of pixels to the start of
/// the next: the pixels of the row, filled up to a multiple of four bytes.
pub open spec fn bmp_row_size(bytes: Seq<u8>) -> nat {
    let row = bmp_width(bytes) * (bmp_bits(bytes) / 8);
    row + ((4 - row % 4) % 4) as nat
}

/// The headers of the file are those of a bitmap of 24 or 32 bits for a
/// pixel whose pixels follow the headers at once.
pub open spec fn bmp_header_ok(bytes: Seq<u8>) -> bool {
    &&& bytes.len() >= 54
    &&& bytes[0] == 0x42
    &&& bytes[1] == 0x4D
    &&& bmp_field(bytes, 10, 4) == 54
    &&& bmp_field(bytes, 14, 4) == 40
    &&& bmp_signed_height(bytes) != i32::MIN
    &&& (bmp_bits(bytes) == 24 || bmp_bits(bytes) == 32)
}

/// Where in the file the pixel in a column of a row of the file starts.
pub open spec fn bmp_pixel_at(bytes: Seq<u8>, column: int, file_row: int) -> int {
    54 + file_row * bmp_row_size(bytes) + column * (bmp_bits(bytes) / 8)
}

/// The file is long enough for all pixels of the image.
pub open spec fn bmp_rows_fit(bytes: Seq<u8>) -> bool {
    bmp_width(bytes) == 0 || bmp_height(bytes) == 0 || bmp_pixel_at(
        bytes,
        bmp_width(bytes) as int,
        bmp_height(bytes) - 1,
    ) <= bytes.len()
}

/// The colour of the pixel that starts at a place of the file: blue, green
/// and red, and opacity where a pixel has 32 bits; full opacity otherwise.
pub open spec fn bmp_color(bytes: Seq<u8>, at: int) -> u32 {
    if bmp_bits(bytes) == 32 {
        packed(bytes[at + 3], bytes[at + 2], bytes[at + 1], bytes[at])
    } else {
        packed(0xFF, bytes[at + 2], bytes[at + 1], bytes[at])
    }
}

/// The row of the file that holds a row of the image: the same where the
/// rows run from the top down, counted from the last one otherwise.
pub open spec fn bmp_file_row(bytes: Seq<u8>, row: int) -> int {
    if bmp_signed_height(bytes) < 0 {
        row
    } else {
        bmp_height(bytes) - 1 - row
    }
}

/// The grid holds the image of the bitmap file: it has its width and
/// height, and each cell is the value made from the colour of its pixel.
pub open spec fn is_bmp_image<T: ColorConvertible>(bytes: Seq<u8>, grid: &Grid<T>) -> bool {
    &&& grid.width == bmp_width(bytes)
    &&& grid.height == bmp_height(bytes)
    &&& grid@.len() == bmp_width(bytes) * bmp_height(bytes)
    &&& forall|x: int, y: int|
        0 <= x < bmp_width(bytes) && 0 <= y < bmp_height(bytes) ==> #[trigger] grid@[linear_index(
            bmp_width(bytes) as int,
            x,
            y,
        )] == T::value_of_color(
            bmp_color(bytes, bmp_pixel_at(bytes, x, bmp_file_row(bytes, y))),
        )
}

/// The bytes of the pixels of a bitmap file of 32 bits for a pixel: blue,
/// green, red and opacity of each colour.
pub open spec fn bmp_pixel_bytes(colors: Seq<u32>) -> Seq<u8> {
    Seq::new(
        4 * colors.len(),
        |k: int|
            if k % 4 == 0 {
                blue_of(colors[k / 4])
            } else if k % 4 == 1 {
                green_of(colors[k / 4])
            } else if k % 4 == 2 {
                red_of(colors[k / 4])
            } else {
                alpha_of(colors[k / 4])
            },
    )
}

/// The size of the pixel data as the info header of a written file states
/// it.
pub open spec fn bmp_stated_data_size(width: nat, height: nat) -> nat {
    (((width + (4 - width % 4) % 4) * height * 10) % 0x1_0000_0000) as nat
}

/// The headers of a bitmap file that is written for an image of the given
/// size, with its rows from the top down and 32 bits for a pixel.
pub open spec fn bmp_headers(width: nat, height: nat) -> Seq<u8> {
    seq![0x42u8, 0x4Du8] + le_bytes(54 + width * height * 4, 4) + le_bytes(0, 2) + le_bytes(0, 2)
        + le_bytes(54, 4) + le_bytes(40, 4) + le_bytes(width, 4) + le_bytes(
        twos_complement(-(height as int), 4),
        4,
    ) + le_bytes(1, 2) + le_bytes(32, 2) + le_bytes(0, 4) + le_bytes(
        bmp_stated_data_size(width, height),
        4,
    ) + le_bytes(1000, 4) + le_bytes(1000, 4) + le_bytes(0, 4) + le_bytes(0, 4)
}

/// The colours that the cells of a grid are shown as.
pub open spec fn colors_of<T: ColorConvertible>(cells: Seq<T>) -> Seq<u32> {
    Seq::new(cells.len(), |i: int| cells[i].color_value())
}

impl<T: ColorConvertible> Grid<T> {
    /// Convert the grid to BMP bytes.
    pub fn to_bmp_bytes(&self) -> (bytes: Vec<u8>)
        requires
            self.wf(),
            self.width <= i32::MAX,
            self.height <= i32::MAX,
            54 + self@.len() * 4 <= u32::MAX,
        ensures
            bytes@ == bmp_headers(self.width as nat, self.height as nat) + bmp_pixel_bytes(
                colors_of(self@),
            ),
    {
        assert(self.data.len() == self@.len());
        proof {
            lemma_pow256_values();
        }
        let full_file_bytes_size: u64 = 54 + (self.data.len() as u64) * 4;
        let padded_width: u128 = self.width as u128 + ((4 - self.width % 4) % 4) as u128;
        assert(padded_width * (self.height as u128) * 10 <= u128::MAX) by (nonlinear_arith)
            requires
                padded_width <= 0x8000_0003,
                self.height <= 0x8000_0000,
        ;
        let image_data_size: u64 = ((padded_width * (self.height as u128) * 10) % 0x1_0000_0000) as u64;
        let signed_height: u64 = if self.height == 0 {
            0
        } else {
            0x1_0000_0000 - self.height as u64
        };
        let mut bytes: Vec<u8> = Vec::new();
        bytes.push(0x42);
        bytes.push(0x4D);
        let mut part: Vec<u8> = unsigned_to_le_bytes(full_file_bytes_size, 4);
        bytes.append(&mut part);
        let mut part: Vec<u8> = unsigned_to_le_bytes(0, 2);
        bytes.append(&mut part);
        let mut part: Vec<u8> = unsigned_to_le_bytes(0, 2);
        bytes.append(&mut part);
        let mut part: Vec<u8> = unsigned_to_le_bytes(54, 4);
        bytes.append(&mut part);
        let mut part: Vec<u8> = unsigned_to_le_bytes(40, 4);
        bytes.append(&mut part);
        let mut part: Vec<u8> = unsigned_to_le_bytes(self.width as u64, 4);
        bytes.append(&mut part);
        let mut part: Vec<u8> = unsigned_to_le_bytes(signed_height, 4);
        bytes.append(&mut part);
        let mut part: Vec<u8> = unsigned_to_le_bytes(1, 2);
        bytes.append(&mut part);
        let mut part: Vec<u8> = unsigned_to_le_bytes(32, 2);
        bytes.append(&mut part);
        let mut part: Vec<u8> = unsigned_to_le_bytes(0, 4);
        bytes.append(&mut part);
        let mut part: Vec<u8> = unsigned_to_le_bytes(image_data_size, 4);
        bytes.append(&mut part);
        let mut part: Vec<u8> = unsigned_to_le_bytes(1000, 4);
        bytes.append(&mut part);
        let mut part: Vec<u8> = unsigned_to_le_bytes(1000, 4);
        bytes.append(&mut part);
        let mut part: Vec<u8> = unsigned_to_le_bytes(0, 4);
        bytes.append(&mut part);
        let mut part: Vec<u8> = unsigned_to_le_bytes(0, 4);
        bytes.append(&mut part);
        let ghost headers = bytes@;
        let ghost colors = colors_of(self@);
        proof {
            assert(self@.len() == self.width * self.height);
            assert(headers == bmp_headers(self.width as nat, self.height as nat));
            assert(bmp_pixel_bytes(colors.take(0)) == Seq::<u8>::empty());
        }
        let mut index: usize = 0;
        while index < self.data.len()
            invariant
                index <= self@.len(),
                colors == colors_of(self@),
                bytes@ == headers + bmp_pixel_bytes(colors.take(index as int)),
            decreases self@.len() - index,
        {
            let color: Color = self.data[index].to_color();
            let ghost before = bytes@;
            let blue: u8 = color.b();
            let green: u8 = color.g();
            let red: u8 = color.r();
            let alpha: u8 = color.a();
            bytes.push(blue);
            bytes.push(green);
            bytes.push(red);
            bytes.push(alpha);
            proof {
                let longer = bmp_pixel_bytes(colors.take(index + 1));
                let shorter = bmp_pixel_bytes(colors.take(index as int));
                assert(colors[index as int] == color.0);
                assert(longer == shorter + seq![blue, green, red, alpha]);
                assert(bytes@ == before + seq![blue, green, red, alpha]);
            }
            index += 1;
        }
        proof {
            assert(colors.take(colors.len() as int) == colors);
        }
        bytes
    }
}


/// The colours of the pixels of a bitmap file in the order of the file,
/// read up to a column of a row.
pub open spec fn bmp_colors_read(bytes: Seq<u8>, colors: Seq<u32>, row: int, column: int) -> bool {
    let width = bmp_width(bytes) as int;
    &&& colors.len() == row * width + column
    &&& forall|c: int, r: int|
        0 <= c < width && 0 <= r && (r < row || (r == row && c < column))
            ==> #[trigger] colors[linear_index(width, c, r)] == bmp_color(
            bytes,
            bmp_pixel_at(bytes, c, r),
        )
}

/// A pixel that lies before another pixel in the file ends before the
/// other one does.
pub proof fn lemma_bmp_pixel_order(bytes: Seq<u8>, column: int, row: int)
    requires
        0 <= column < bmp_width(bytes),
        0 <= row < bmp_height(bytes),
    ensures
        bmp_pixel_at(bytes, column, row) + bmp_bits(bytes) / 8 <= bmp_pixel_at(
            bytes,
            bmp_width(bytes) as int,
            bmp_height(bytes) - 1,
        ),
        bmp_pixel_at(bytes, column, row) >= 54,
{
    let size = bmp_row_size(bytes) as int;
    let pixel = (bmp_bits(bytes) / 8) as int;
    let width = bmp_width(bytes) as int;
    let height = bmp_height(bytes) as int;
    assert(row * size <= (height - 1) * size) by (nonlinear_arith)
        requires
            0 <= row <= height - 1,
            0 <= size,
    ;
    assert(column * pixel + pixel <= width * pixel) by (nonlinear_arith)
        requires
            0 <= column < width,
            0 <= pixel,
    ;
    assert(0 <= row * size) by (nonlinear_arith)
        requires
            0 <= row,
            0 <= size,
    ;
    assert(0 <= column * pixel) by (nonlinear_arith)
        requires
            0 <= column,
            0 <= pixel,
    ;
}

impl<T: ColorConvertible> Grid<T> {
    /// Read a grid from a BMP bytes list.
    pub fn from_bmp_bytes(bytes: Vec<u8>) -> (result: Result<Grid<T>, GridError>)
        ensures
            match result {
                Ok(grid) => bmp_header_ok(bytes@) && bmp_rows_fit(bytes@) && is_bmp_image(
                    bytes@,
                    &grid,
                ),
                Err(error) => error == GridError::Format && !(bmp_header_ok(bytes@) && bmp_rows_fit(
                    bytes@,
                )),
            },
    {
        let ghost file = bytes@;
        let mut parser: ByteCursor = ByteCursor::new(bytes.as_slice(), false);

        let first: u8 = parser.take_u8()?;
        let second: u8 = parser.take_u8()?;
        if first != 0x42 || second != 0x4D {
            return Err(GridError::Format);
        }
        let _full_file_bytes_size: u32 = parser.take_u32()?;
        let _reserved_1: u16 = parser.take_u16()?;
        let _reserved_2: u16 = parser.take_u16()?;
        let pixel_data_offset: u32 = parser.take_u32()?;

        let info_header_size: u32 = parser.take_u32()?;
        if info_header_size != BMP_INFO_HEADER_SIZE {
            return Err(GridError::Format);
        }
        let width: u32 = parser.take_u32()?;
        let signed_height: i32 = parser.take_i32()?;
        if signed_height == i32::MIN {
            return Err(GridError::Format);
        }
        let top_down: bool = signed_height < 0;
        let height: u32 = if top_down {
            (-signed_height) as u32
        } else {
            signed_height as u32
        };
        let _amount_of_planes: u16 = parser.take_u16()?;
        let bits_per_pixel: u16 = parser.take_u16()?;
        let _compression: u32 = parser.take_u32()?;
        let _image_size: u32 = parser.take_u32()?;
        let _pixels_per_meter_x: u32 = parser.take_u32()?;
        let _pixels_per_meter_y: u32 = parser.take_u32()?;
        let _used_colors: u32 = parser.take_u32()?;
        let _important_colors: u32 = parser.take_u32()?;

        if parser.cursor() as u64 != pixel_data_offset as u64 {
            return Err(GridError::Format);
        }
        if bits_per_pixel != 32 && bits_per_pixel != 24 {
            return Err(GridError::Format);
        }
        let pixel_size: usize = (bits_per_pixel / 8) as usize;
        let row_bytes: u64 = if bits_per_pixel == 32 {
            width as u64 * 4
        } else {
            width as u64 * 3
        };
        let row_padding: usize = ((4 - row_bytes % 4) % 4) as usize;
        assert(bmp_header_ok(file));
        assert(bmp_width(file) == width);
        assert(bmp_height(file) == height);
        assert(bmp_bits(file) / 8 == pixel_size);
        assert(bmp_row_size(file) == row_bytes + row_padding);

        let mut file_colors: Vec<u32> = Vec::new();
        let mut file_row: u32 = 0;
        proof {
            assert(0 * (width as int) + 0 == 0) by (nonlinear_arith);
            assert(0 * bmp_row_size(file) == 0) by (nonlinear_arith);
            assert(0 * (pixel_size as int) == 0) by (nonlinear_arith);
        }
        while file_row < height
            invariant
                parser.wf(),
                parser.bytes@ == file,
                file == bytes@,
                bmp_header_ok(file),
                bmp_width(file) == width,
                bmp_height(file) == height,
                bmp_bits(file) == bits_per_pixel,
                bmp_bits(file) / 8 == pixel_size,
                pixel_size == 3 || pixel_size == 4,
                bmp_row_size(file) == width * pixel_size + row_padding,
                file_row <= height,
                parser.cursor == bmp_pixel_at(file, 0, file_row as int) || (bmp_pixel_at(
                    file,
                    0,
                    file_row as int,
                ) > file.len() && parser.cursor == file.len()),
                file_row > 0 && width > 0 ==> bmp_pixel_at(file, width as int, file_row - 1)
                    <= file.len(),
                bmp_colors_read(file, file_colors@, file_row as int, 0),
            decreases height - file_row,
        {
            let mut column: u32 = 0;
            while column < width
                invariant
                    parser.wf(),
                    parser.bytes@ == file,
                    file == bytes@,
                    bmp_header_ok(file),
                    bmp_width(file) == width,
                    bmp_height(file) == height,
                    bmp_bits(file) == bits_per_pixel,
                    bmp_bits(file) / 8 == pixel_size,
                    pixel_size == 3 || pixel_size == 4,
                    file_row < height,
                    column <= width,
                    parser.cursor == bmp_pixel_at(file, column as int, file_row as int) || (
                    bmp_pixel_at(file, column as int, file_row as int) > file.len() && parser.cursor
                        == file.len()),
                    column > 0 ==> bmp_pixel_at(file, column as int, file_row as int) <= file.len(),
                    bmp_colors_read(file, file_colors@, file_row as int, column as int),
                decreases width - column,
            {
                proof {
                    lemma_bmp_pixel_order(file, column as int, file_row as int);
                    assert((column + 1) * pixel_size == column * pixel_size + pixel_size)
                        by (nonlinear_arith);
                    lemma_index_round_trip(
                        width as int,
                        file_row + 1,
                        column as int,
                        file_row as int,
                    );
                }
                let ghost at = parser.cursor as int;
                let blue: u8 = parser.take_u8()?;
                let green: u8 = parser.take_u8()?;
                let red: u8 = parser.take_u8()?;
                let color: u32 = if bits_per_pixel == 32 {
                    let alpha: u8 = parser.take_u8()?;
                    pack(alpha, red, green, blue)
                } else {
                    pack(0xFF, red, green, blue)
                };
                let ghost before = file_colors@;
                file_colors.push(color);
                proof {
                    assert(at == bmp_pixel_at(file, column as int, file_row as int));
                    assert(color == bmp_color(file, at));
                    assert forall|c: int, r: int|
                        0 <= c < width && 0 <= r && (r < file_row || (r == file_row && c < column
                            + 1)) implies #[trigger] file_colors@[linear_index(width as int, c, r)]
                        == bmp_color(file, bmp_pixel_at(file, c, r)) by {
                        if r == file_row && c == column {
                        } else {
                            lemma_index_round_trip(width as int, file_row + 1, c, r);
                            assert(r * width + c < file_row * width + column) by (nonlinear_arith)
                                requires
                                    0 <= c < width,
                                    0 <= r,
                                    r < file_row || (r == file_row && c < column),
                                    column < width,
                            ;
                            assert(file_colors@[linear_index(width as int, c, r)]
                                == before[linear_index(width as int, c, r)]);
                        }
                    }
                }
                column += 1;
            }
            proof {
                assert((file_row + 1) * bmp_row_size(file) == file_row * bmp_row_size(file)
                    + bmp_row_size(file)) by (nonlinear_arith);
                assert((file_row + 1) * width == file_row * width + width) by (nonlinear_arith);
                assert(0 * (pixel_size as int) == 0) by (nonlinear_arith);
            }
            parser.skip(row_padding);
            file_row += 1;
        }
        proof {
            if width > 0 && height > 0 {
                assert(bmp_rows_fit(file));
            }
            assert(file_colors@.len() == height * width);
        }

        let mut data: Vec<T> = Vec::new();
        let mut y: u32 = 0;
        proof {
            assert(0 * (width as int) == 0) by (nonlinear_arith);
        }
        while y < height
            invariant
                bmp_width(file) == width,
                bmp_height(file) == height,
                top_down == (bmp_signed_height(file) < 0),
                y <= height,
                bmp_colors_read(file, file_colors@, height as int, 0),
                data@.len() == y * width,
                forall|cx: int, cy: int|
                    0 <= cx < width && 0 <= cy < y ==> #[trigger] data@[linear_index(
                        width as int,
                        cx,
                        cy,
                    )] == T::value_of_color(
                        bmp_color(file, bmp_pixel_at(file, cx, bmp_file_row(file, cy))),
                    ),
            decreases height - y,
        {
            let source_row: u32 = if top_down {
                y
            } else {
                height - 1 - y
            };
            let ghost row_before = data@;
            let mut x: u32 = 0;
            while x < width
                invariant
                    bmp_width(file) == width,
                    bmp_height(file) == height,
                    y < height,
                    x <= width,
                    source_row < height,
                    source_row == bmp_file_row(file, y as int),
                    bmp_colors_read(file, file_colors@, height as int, 0),
                    row_before.len() == y * width,
                    data@.len() == row_before.len() + x,
                    data@.take(row_before.len() as int) == row_before,
                    forall|cx: int|
                        0 <= cx < x ==> #[trigger] data@[row_before.len() + cx] == T::value_of_color(
                            bmp_color(file, bmp_pixel_at(file, cx, source_row as int)),
                        ),
                decreases width - x,
            {
                proof {
                    lemma_index_round_trip(width as int, height as int, x as int, source_row as int);
                    assert(file_colors@.len() == width * height) by (nonlinear_arith)
                        requires
                            file_colors@.len() == height * width + 0,
                    ;
                    assert(file_colors.len() == file_colors@.len());
                }
                let index: usize = source_row as usize * width as usize + x as usize;
                assert(file_colors@[linear_index(width as int, x as int, source_row as int)]
                    == bmp_color(file, bmp_pixel_at(file, x as int, source_row as int)));
                data.push(T::from_color(Color(file_colors[index])));
                x += 1;
            }
            proof {
                assert((y + 1) * width == y * width + width) by (nonlinear_arith);
                assert forall|cx: int, cy: int| 0 <= cx < width && 0 <= cy < y + 1 implies #[trigger] data@[linear_index(
                    width as int,
                    cx,
                    cy,
                )] == T::value_of_color(
                    bmp_color(file, bmp_pixel_at(file, cx, bmp_file_row(file, cy))),
                ) by {
                    if cy < y {
                        lemma_index_round_trip(width as int, y as int, cx, cy);
                        assert(width * y == y * width) by (nonlinear_arith);
                        assert(data@[linear_index(width as int, cx, cy)] == data@.take(
                            row_before.len() as int,
                        )[linear_index(width as int, cx, cy)]);
                    } else {
                        assert(linear_index(width as int, cx, cy) == row_before.len() + cx);
                    }
                }
            }
            y += 1;
        }
        proof {
            assert(data@.len() == width * height) by (nonlinear_arith)
                requires
                    data@.len() == y * width,
                    y == height,
            ;
        }
        Ok(Grid::new(data, width as usize, height as usize))
    }
}


/// The headers of a written bitmap file are 54 bytes long and state what
/// they were written for: the signature, the place of the pixels, the size
/// of the info header, the width, the height with its rows from the top
/// down, and 32 bits for a pixel.
pub proof fn lemma_bmp_headers(width: nat, height: nat, pixels: Seq<u8>)
    requires
        width <= i32::MAX,
        height <= i32::MAX,
        54 + width * height * 4 <= u32::MAX,
    ensures
        bmp_headers(width, height).len() == 54,
        bmp_header_ok(bmp_headers(width, height) + pixels),
        bmp_width(bmp_headers(width, height) + pixels) == width,
        bmp_height(bmp_headers(width, height) + pixels) == height,
        bmp_bits(bmp_headers(width, height) + pixels) == 32,
        height > 0 ==> bmp_signed_height(bmp_headers(width, height) + pixels) < 0,
{
    let headers = bmp_headers(width, height);
    let bytes = headers + pixels;
    let signed = twos_complement(-(height as int), 4);
    lemma_pow256_values();
    lemma_le_round_trip(54 + width * height * 4, 4);
    lemma_le_round_trip(0, 2);
    lemma_le_round_trip(54, 4);
    lemma_le_round_trip(40, 4);
    lemma_le_round_trip(width, 4);
    lemma_le_round_trip(signed, 4);
    lemma_le_round_trip(1, 2);
    lemma_le_round_trip(32, 2);
    lemma_le_round_trip(0, 4);
    lemma_le_round_trip(bmp_stated_data_size(width, height), 4);
    lemma_le_round_trip(1000, 4);
    assert(headers.len() == 54);
    assert(bytes.subrange(10, 14) =~= le_bytes(54, 4));
    assert(bytes.subrange(14, 18) =~= le_bytes(40, 4));
    assert(bytes.subrange(18, 22) =~= le_bytes(width, 4));
    assert(bytes.subrange(22, 26) =~= le_bytes(signed, 4));
    assert(bytes.subrange(28, 30) =~= le_bytes(32, 2));
    assert(bytes[0] == 0x42 && bytes[1] == 0x4D);
}

/// A grid that is written as a bitmap file is read back from it: the file
/// has the headers of a bitmap that is long enough for its pixels, states
/// the width and the height of the grid, and holds for each cell the
/// colour that the cell was written with.
pub proof fn lemma_bmp_round_trip(colors: Seq<u32>, width: nat, height: nat)
    requires
        colors.len() == width * height,
        width <= i32::MAX,
        height <= i32::MAX,
        54 + colors.len() * 4 <= u32::MAX,
    ensures
        bmp_header_ok(bmp_headers(width, height) + bmp_pixel_bytes(colors)),
        bmp_rows_fit(bmp_headers(width, height) + bmp_pixel_bytes(colors)),
        bmp_width(bmp_headers(width, height) + bmp_pixel_bytes(colors)) == width,
        bmp_height(bmp_headers(width, height) + bmp_pixel_bytes(colors)) == height,
        forall|x: int, y: int|
            0 <= x < width && 0 <= y < height ==> bmp_color(
                bmp_headers(width, height) + bmp_pixel_bytes(colors),
                bmp_pixel_at(
                    bmp_headers(width, height) + bmp_pixel_bytes(colors),
                    x,
                    bmp_file_row(bmp_headers(width, height) + bmp_pixel_bytes(colors), y),
                ),
            ) == #[trigger] colors[linear_index(width as int, x, y)],
{
    let pixels = bmp_pixel_bytes(colors);
    let bytes = bmp_headers(width, height) + pixels;
    lemma_bmp_headers(width, height, pixels);
    assert(bmp_row_size(bytes) == width * 4) by {
        assert((width * 4) % 4 == 0) by (nonlinear_arith);
    }
    if width > 0 && height > 0 {
        assert((height - 1) * (width * 4) + width * 4 == width * height * 4) by (nonlinear_arith);
        assert(bmp_pixel_at(bytes, width as int, height - 1) == bytes.len());
    }
    assert forall|x: int, y: int| 0 <= x < width && 0 <= y < height implies bmp_color(
        bytes,
        bmp_pixel_at(bytes, x, bmp_file_row(bytes, y)),
    ) == #[trigger] colors[linear_index(width as int, x, y)] by {
        let index = linear_index(width as int, x, y);
        lemma_index_round_trip(width as int, height as int, x, y);
        let at = bmp_pixel_at(bytes, x, y);
        assert(bmp_file_row(bytes, y) == y);
        assert(at == 54 + 4 * index) by (nonlinear_arith)
            requires
                at == 54 + y * (width * 4) + x * 4,
                index == y * width + x,
        ;
        assert(bytes[at] == pixels[4 * index]);
        assert(bytes[at + 1] == pixels[4 * index + 1]);
        assert(bytes[at + 2] == pixels[4 * index + 2]);
        assert(bytes[at + 3] == pixels[4 * index + 3]);
        lemma_parts_packed(colors[index]);
    }
}

} // verus!
