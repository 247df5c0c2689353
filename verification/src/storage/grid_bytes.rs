use vstd::prelude::*;
use vstd::slice::slice_subrange;
use crate::errors::GridError;
use crate::grid::Grid;
use crate::storage::big_endian::be_bytes;
use crate::storage::big_endian::be_value;
use crate::storage::big_endian::bytes_to_unsigned;
use crate::storage::big_endian::lemma_be_bytes_len;
use crate::storage::big_endian::lemma_be_value_bound;
use crate::storage::big_endian::lemma_be_value_of_bytes;
use crate::storage::big_endian::lemma_pow256_values;
use crate::storage::big_endian::unsigned_to_bytes;
use crate::storage::byte_conversion::ByteConversion;
use crate::storage::byte_lists::decode_list;
use crate::storage::byte_lists::encode_list;
use crate::storage::byte_lists::lemma_list_round_trip;
use crate::storage::byte_lists::list_as_bytes;
use crate::storage::byte_lists::list_from_bytes;
use crate::storage::byte_lists::list_representable;

verus! {

/// The number of bytes that hold the width and the height of a grid.
pub const MIN_BYTES: usize = 8;

/// The bytes of a grid: its width and its height, in four bytes each with
/// the most significant first, and then the list of its cells.
pub open spec fn encode_grid<T: ByteConversion>(cells: Seq<T::V>, width: nat, height: nat) -> Seq<u8> {
    be_bytes((width % 0x1_0000_0000) as nat, 4) + be_bytes((height % 0x1_0000_0000) as nat, 4)
        + encode_list::<T>(cells)
}

/// The cells, the width and the height of the grid that the bytes stand
/// for, if they stand for one.
pub open spec fn decode_grid<T: ByteConversion>(bytes: Seq<u8>) -> Option<(Seq<T::V>, nat, nat)> {
    if bytes.len() < 8 {
        None
    } else {
        match decode_list::<T>(bytes.skip(8)) {
            Some(cells) => Some(
                (cells, be_value(bytes.subrange(0, 4)), be_value(bytes.subrange(4, 8))),
            ),
            None => None,
        }
    }
}

/// A grid comes back from its bytes with the same width, height and cells,
/// when its width, its height and the number of its cells are below 2 to
/// the power of 32 and each cell comes back from its bytes.
pub proof fn lemma_grid_round_trip<T: ByteConversion>(cells: Seq<T::V>, width: nat, height: nat)
    requires
        width < 0x1_0000_0000,
        height < 0x1_0000_0000,
        list_representable::<T>(cells),
    ensures
        decode_grid::<T>(encode_grid::<T>(cells, width, height)) == Some((cells, width, height)),
{
    let bytes = encode_grid::<T>(cells, width, height);
    let first = be_bytes(width, 4);
    let second = be_bytes(height, 4);
    lemma_pow256_values();
    lemma_be_bytes_len(width, 4);
    lemma_be_bytes_len(height, 4);
    lemma_be_value_of_bytes(width, 4);
    lemma_be_value_of_bytes(height, 4);
    lemma_list_round_trip::<T>(cells, Seq::empty());
    assert(bytes.subrange(0, 4) == first);
    assert(bytes.subrange(4, 8) == second);
    assert(bytes.skip(8) == encode_list::<T>(cells));
}

impl<T: ByteConversion> Grid<T> {
    /// Convert the grid to bytes.
    pub fn to_bytes(&self) -> (bytes: Vec<u8>)
        ensures
            bytes@ == encode_grid::<T>(
                self.data.deep_view(),
                self.width as nat,
                self.height as nat,
            ),
    {
        let width: u64 = (self.width as u64) % 0x1_0000_0000;
        let height: u64 = (self.height as u64) % 0x1_0000_0000;
        let mut bytes: Vec<u8> = unsigned_to_bytes(width as u128, 4);
        let mut height_bytes: Vec<u8> = unsigned_to_bytes(height as u128, 4);
        bytes.append(&mut height_bytes);
        let cells: &[T] = self.data.as_slice();
        assert(cells.deep_view() == self.data.deep_view());
        let mut cell_bytes: Vec<u8> = list_as_bytes::<T>(cells);
        bytes.append(&mut cell_bytes);
        bytes
    }

    /// Try to create a grid from bytes.
    pub fn from_bytes(bytes: &[u8]) -> (result: Result<Grid<T>, GridError>)
        ensures
            match result {
                Ok(grid) => decode_grid::<T>(bytes@) == Some(
                    (grid.data.deep_view(), grid.width as nat, grid.height as nat),
                ),
                Err(error) => error == GridError::Format && decode_grid::<T>(bytes@) is None,
            },
    {
        if bytes.len() < MIN_BYTES {
            return Err(GridError::Format);
        }
        proof {
            lemma_be_value_bound(bytes@.subrange(0, 4));
            lemma_be_value_bound(bytes@.subrange(4, 8));
            lemma_pow256_values();
        }
        let width: u128 = bytes_to_unsigned(slice_subrange(bytes, 0, 4));
        let height: u128 = bytes_to_unsigned(slice_subrange(bytes, 4, 8));
        let cells: &[u8] = slice_subrange(bytes, MIN_BYTES, bytes.len());
        assert(cells@ == bytes@.skip(8));
        match list_from_bytes::<T>(cells) {
            Some(data) => Ok(Grid::new(data, width as usize, height as usize)),
            None => Err(GridError::Format),
        }
    }
}

} // verus!
