pub mod big_endian;
pub mod byte_conversion;
pub mod byte_cursor;
pub mod byte_lists;
pub mod grid_bytes;
pub mod little_endian;
pub mod bmp_conversion;
