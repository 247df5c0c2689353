use vstd::prelude::*;
use crate::storage::byte_cursor::ByteCursor;
use crate::storage::byte_cursor::number_at;
use crate::storage::byte_cursor::signed_at;

verus! {

/// The unsigned number that the two bytes at a place of a font file stand
/// for. The numbers of a font file have their most significant byte first.
pub open spec fn u16_at(bytes: Seq<u8>, at: int) -> Option<u16> {
    if 0 <= at && at + 2 <= bytes.len() {
        Some(number_at(bytes, at, 2, true) as u16)
    } else {
        None
    }
}

/// The unsigned number that the four bytes at a place of a font file stand
/// for.
pub open spec fn u32_at(bytes: Seq<u8>, at: int) -> Option<u32> {
    if 0 <= at && at + 4 <= bytes.len() {
        Some(number_at(bytes, at, 4, true) as u32)
    } else {
        None
    }
}

/// The signed number that the two bytes at a place of a font file stand
/// for.
pub open spec fn i16_at(bytes: Seq<u8>, at: int) -> Option<i16> {
    if 0 <= at && at + 2 <= bytes.len() {
        Some(signed_at(bytes, at, 2, true) as i16)
    } else {
        None
    }
}

/// The byte at a place of a font file.
pub open spec fn u8_at(bytes: Seq<u8>, at: int) -> Option<u8> {
    if 0 <= at < bytes.len() {
        Some(bytes[at])
    } else {
        None
    }
}

/// Read the unsigned number of two bytes at a place.
pub fn read_u16(bytes: &[u8], at: usize) -> (value: Option<u16>)
    ensures
        value == u16_at(bytes@, at as int),
{
    if at > bytes.len() {
        return None;
    }
    let mut cursor: ByteCursor = ByteCursor { bytes, cursor: at, big_endian: true };
    match cursor.take_u16() {
        Ok(value) => Some(value),
        Err(_) => None,
    }
}

/// Read the unsigned number of four bytes at a place.
pub fn read_u32(bytes: &[u8], at: usize) -> (value: Option<u32>)
    ensures
        value == u32_at(bytes@, at as int),
{
    if at > bytes.len() {
        return None;
    }
    let mut cursor: ByteCursor = ByteCursor { bytes, cursor: at, big_endian: true };
    match cursor.take_u32() {
        Ok(value) => Some(value),
        Err(_) => None,
    }
}

/// Read the signed number of two bytes at a place.
pub fn read_i16(bytes: &[u8], at: usize) -> (value: Option<i16>)
    ensures
        value == i16_at(bytes@, at as int),
{
    if at > bytes.len() {
        return None;
    }
    let mut cursor: ByteCursor = ByteCursor { bytes, cursor: at, big_endian: true };
    match cursor.take_i16() {
        Ok(value) => Some(value),
        Err(_) => None,
    }
}

/// Read the byte at a place.
pub fn read_u8(bytes: &[u8], at: usize) -> (value: Option<u8>)
    ensures
        value == u8_at(bytes@, at as int),
{
    if at < bytes.len() {
        Some(bytes[at])
    } else {
        None
    }
}

/// The unsigned numbers of two bytes each that stand one after the other
/// from a place on.
pub open spec fn u16s_at(bytes: Seq<u8>, at: int, count: int) -> Option<Seq<u16>> {
    if 0 <= at && 0 <= count && at + 2 * count <= bytes.len() {
        Some(Seq::new(count as nat, |k: int| number_at(bytes, at + 2 * k, 2, true) as u16))
    } else {
        None
    }
}

/// The signed numbers of two bytes each that stand one after the other
/// from a place on.
pub open spec fn i16s_at(bytes: Seq<u8>, at: int, count: int) -> Option<Seq<i16>> {
    if 0 <= at && 0 <= count && at + 2 * count <= bytes.len() {
        Some(Seq::new(count as nat, |k: int| signed_at(bytes, at + 2 * k, 2, true) as i16))
    } else {
        None
    }
}

/// Read unsigned numbers of two bytes each that stand one after the other.
pub fn read_u16s(bytes: &[u8], at: usize, count: usize) -> (values: Option<Vec<u16>>)
    ensures
        match values {
            Some(values) => u16s_at(bytes@, at as int, count as int) == Some(values@),
            None => u16s_at(bytes@, at as int, count as int) is None,
        },
{
    if at > bytes.len() || count > (bytes.len() - at) / 2 {
        return None;
    }
    assert(bytes.len() == bytes@.len());
    let ghost all = u16s_at(bytes@, at as int, count as int)->Some_0;
    let mut values: Vec<u16> = Vec::with_capacity(count);
    let mut k: usize = 0;
    while k < count
        invariant
            k <= count,
            at + 2 * count <= bytes@.len(),
            bytes@.len() <= usize::MAX,
            values@.len() == k,
            forall|j: int| 0 <= j < k ==> values@[j] == number_at(bytes@, at + 2 * j, 2, true) as u16,
        decreases count - k,
    {
        let value: Option<u16> = read_u16(bytes, at + 2 * k);
        values.push(value.unwrap());
        k += 1;
    }
    assert(values@ =~= all);
    Some(values)
}

/// Read signed numbers of two bytes each that stand one after the other.
pub fn read_i16s(bytes: &[u8], at: usize, count: usize) -> (values: Option<Vec<i16>>)
    ensures
        match values {
            Some(values) => i16s_at(bytes@, at as int, count as int) == Some(values@),
            None => i16s_at(bytes@, at as int, count as int) is None,
        },
{
    if at > bytes.len() || count > (bytes.len() - at) / 2 {
        return None;
    }
    assert(bytes.len() == bytes@.len());
    let ghost all = i16s_at(bytes@, at as int, count as int)->Some_0;
    let mut values: Vec<i16> = Vec::with_capacity(count);
    let mut k: usize = 0;
    while k < count
        invariant
            k <= count,
            at + 2 * count <= bytes@.len(),
            bytes@.len() <= usize::MAX,
            values@.len() == k,
            forall|j: int| 0 <= j < k ==> values@[j] == signed_at(bytes@, at + 2 * j, 2, true) as i16,
        decreases count - k,
    {
        let value: Option<i16> = read_i16(bytes, at + 2 * k);
        values.push(value.unwrap());
        k += 1;
    }
    assert(values@ =~= all);
    Some(values)
}

} // verus!
