use vstd::prelude::*;
use bytes_parser::BytesParser;
use bytes_parser::BytesParserError;
use bytes_parser::ParsingEndian;
use crate::errors::GridError;
use crate::storage::big_endian::be_value;
use crate::storage::big_endian::from_twos_complement;
use crate::storage::little_endian::le_value;

verus! {

/// The number that `size` bytes at a place in the bytes stand for, with the
/// most significant byte first or last.
pub open spec fn number_at(bytes: Seq<u8>, at: int, size: int, big_endian: bool) -> nat {
    if big_endian {
        be_value(bytes.subrange(at, at + size))
    } else {
        le_value(bytes.subrange(at, at + size))
    }
}

/// The signed number that `size` bytes at a place in the bytes stand for in
/// two's complement.
pub open spec fn signed_at(bytes: Seq<u8>, at: int, size: int, big_endian: bool) -> int {
    from_twos_complement(number_at(bytes, at, size, big_endian), size as nat)
}

/// The error type of the parser crate.
#[verifier::external_type_specification]
#[verifier::external_body]
pub struct ExBytesParserError(BytesParserError);

/// The byte orders of the parser crate: `BE` with the most significant
/// byte first, `LE` with the least significant byte first.
#[verifier::external_type_specification]
pub struct ExParsingEndian(ParsingEndian);

/// Read an unsigned number of two bytes at a place in the bytes. Calls
/// `BytesParser::parse_u16` of the parser crate on the bytes from the place
/// on, set to the byte order asked for: it fails when fewer than two bytes
/// are left, and gives `u16::from_be_bytes` or `u16::from_le_bytes` of the
/// next two bytes otherwise.
#[verifier::external_body]
fn parse_u16(bytes: &[u8], at: usize, endian: ParsingEndian) -> (value: Result<u16, BytesParserError>)
    requires
        at <= bytes@.len(),
    ensures
        value is Ok <==> at + 2 <= bytes@.len(),
        value matches Ok(number) ==> number == number_at(bytes@, at as int, 2, endian is BE),
{
    let mut parser = BytesParser::from(&bytes[at..]);
    parser.set_endian(endian);
    parser.parse_u16()
}

/// Read an unsigned number of four bytes at a place in the bytes. Calls
/// `BytesParser::parse_u32` of the parser crate on the bytes from the place
/// on, set to the byte order asked for: it fails when fewer than four bytes
/// are left, and gives `u32::from_be_bytes` or `u32::from_le_bytes` of the
/// next four bytes otherwise.
#[verifier::external_body]
fn parse_u32(bytes: &[u8], at: usize, endian: ParsingEndian) -> (value: Result<u32, BytesParserError>)
    requires
        at <= bytes@.len(),
    ensures
        value is Ok <==> at + 4 <= bytes@.len(),
        value matches Ok(number) ==> number == number_at(bytes@, at as int, 4, endian is BE),
{
    let mut parser = BytesParser::from(&bytes[at..]);
    parser.set_endian(endian);
    parser.parse_u32()
}

/// Read a signed number of two bytes in two's complement at a place in the
/// bytes. Calls `BytesParser::parse_i16` of the parser crate on the bytes
/// from the place on, set to the byte order asked for: it fails when fewer
/// than two bytes are left, and gives `i16::from_be_bytes` or
/// `i16::from_le_bytes` of the next two bytes otherwise.
#[verifier::external_body]
fn parse_i16(bytes: &[u8], at: usize, endian: ParsingEndian) -> (value: Result<i16, BytesParserError>)
    requires
        at <= bytes@.len(),
    ensures
        value is Ok <==> at + 2 <= bytes@.len(),
        value matches Ok(number) ==> number == signed_at(bytes@, at as int, 2, endian is BE),
{
    let mut parser = BytesParser::from(&bytes[at..]);
    parser.set_endian(endian);
    parser.parse_i16()
}

/// Read a signed number of four bytes in two's complement at a place in
/// the bytes. Calls `BytesParser::parse_i32` of the parser crate on the
/// bytes from the place on, set to the byte order asked for: it fails when
/// fewer than four bytes are left, and gives `i32::from_be_bytes` or
/// `i32::from_le_bytes` of the next four bytes otherwise.
#[verifier::external_body]
fn parse_i32(bytes: &[u8], at: usize, endian: ParsingEndian) -> (value: Result<i32, BytesParserError>)
    requires
        at <= bytes@.len(),
    ensures
        value is Ok <==> at + 4 <= bytes@.len(),
        value matches Ok(number) ==> number == signed_at(bytes@, at as int, 4, endian is BE),
{
    let mut parser = BytesParser::from(&bytes[at..]);
    parser.set_endian(endian);
    parser.parse_i32()
}

/// Bytes that are read from the front to the back, with the place where
/// the next value is read and the byte order of the numbers in them.
pub struct ByteCursor<'a> {
    pub bytes: &'a [u8],
    pub cursor: usize,
    pub big_endian: bool,
}

/// What a read of `size` bytes does to a cursor: it moves the place behind
/// the bytes when they are there, and leaves it where it was and fails
/// when they are not.
pub open spec fn cursor_moved<V>(
    before: &ByteCursor,
    after: &ByteCursor,
    size: int,
    value: Result<V, GridError>,
) -> bool {
    &&& after.bytes == before.bytes
    &&& after.big_endian == before.big_endian
    &&& after.cursor <= after.bytes@.len()
    &&& match value {
        Ok(_) => before.cursor + size <= before.bytes@.len() && after.cursor == before.cursor + size,
        Err(error) => error == GridError::Format && before.cursor + size > before.bytes@.len()
            && after.cursor == before.cursor,
    }
}

impl<'a> ByteCursor<'a> {
    /// The place lies in the bytes or right behind them.
    pub open spec fn wf(&self) -> bool {
        self.cursor <= self.bytes@.len()
    }

    /// Start to read bytes at their front.
    pub fn new(bytes: &'a [u8], big_endian: bool) -> (cursor: ByteCursor<'a>)
        ensures
            cursor.wf(),
            cursor.bytes == bytes,
            cursor.cursor == 0,
            cursor.big_endian == big_endian,
    {
        ByteCursor { bytes, cursor: 0, big_endian }
    }

    /// The byte order of the numbers, as the parser crate names it.
    fn endian(&self) -> (endian: ParsingEndian)
        ensures
            endian is BE <==> self.big_endian,
    {
        if self.big_endian {
            ParsingEndian::BE
        } else {
            ParsingEndian::LE
        }
    }

    /// The place where the next value is read.
    pub fn cursor(&self) -> (cursor: usize)
        ensures
            cursor == self.cursor,
    {
        self.cursor
    }

    /// Read the next byte.
    pub fn take_u8(&mut self) -> (value: Result<u8, GridError>)
        requires
            old(self).wf(),
        ensures
            cursor_moved(old(self), final(self), 1, value),
            value matches Ok(number) ==> number == old(self).bytes@[old(self).cursor as int],
    {
        if self.cursor < self.bytes.len() {
            let value: u8 = self.bytes[self.cursor];
            self.cursor += 1;
            Ok(value)
        } else {
            Err(GridError::Format)
        }
    }

    /// Read the next two bytes as an unsigned number.
    pub fn take_u16(&mut self) -> (value: Result<u16, GridError>)
        requires
            old(self).wf(),
        ensures
            cursor_moved(old(self), final(self), 2, value),
            value matches Ok(number) ==> number == number_at(
                old(self).bytes@,
                old(self).cursor as int,
                2,
                old(self).big_endian,
            ),
    {
        assert(self.bytes.len() == self.bytes@.len());
        match parse_u16(self.bytes, self.cursor, self.endian()) {
            Ok(value) => {
                self.cursor += 2;
                Ok(value)
            },
            Err(_) => Err(GridError::Format),
        }
    }

    /// Read the next four bytes as an unsigned number.
    pub fn take_u32(&mut self) -> (value: Result<u32, GridError>)
        requires
            old(self).wf(),
        ensures
            cursor_moved(old(self), final(self), 4, value),
            value matches Ok(number) ==> number == number_at(
                old(self).bytes@,
                old(self).cursor as int,
                4,
                old(self).big_endian,
            ),
    {
        assert(self.bytes.len() == self.bytes@.len());
        match parse_u32(self.bytes, self.cursor, self.endian()) {
            Ok(value) => {
                self.cursor += 4;
                Ok(value)
            },
            Err(_) => Err(GridError::Format),
        }
    }

    /// Read the next two bytes as a signed number in two's complement.
    pub fn take_i16(&mut self) -> (value: Result<i16, GridError>)
        requires
            old(self).wf(),
        ensures
            cursor_moved(old(self), final(self), 2, value),
            value matches Ok(number) ==> number == signed_at(
                old(self).bytes@,
                old(self).cursor as int,
                2,
                old(self).big_endian,
            ),
    {
        assert(self.bytes.len() == self.bytes@.len());
        match parse_i16(self.bytes, self.cursor, self.endian()) {
            Ok(value) => {
                self.cursor += 2;
                Ok(value)
            },
            Err(_) => Err(GridError::Format),
        }
    }

    /// Read the next four bytes as a signed number in two's complement.
    pub fn take_i32(&mut self) -> (value: Result<i32, GridError>)
        requires
            old(self).wf(),
        ensures
            cursor_moved(old(self), final(self), 4, value),
            value matches Ok(number) ==> number == signed_at(
                old(self).bytes@,
                old(self).cursor as int,
                4,
                old(self).big_endian,
            ),
    {
        assert(self.bytes.len() == self.bytes@.len());
        match parse_i32(self.bytes, self.cursor, self.endian()) {
            Ok(value) => {
                self.cursor += 4;
                Ok(value)
            },
            Err(_) => Err(GridError::Format),
        }
    }

    /// Move the place forward, at most to the end of the bytes.
    pub fn skip(&mut self, amount: usize)
        requires
            old(self).wf(),
        ensures
            final(self).wf(),
            final(self).bytes == old(self).bytes,
            final(self).big_endian == old(self).big_endian,
            final(self).cursor == if old(self).cursor + amount <= old(self).bytes@.len() {
                old(self).cursor + amount
            } else {
                old(self).bytes@.len() as int
            },
    {
        if amount <= self.bytes.len() - self.cursor {
            self.cursor += amount;
        } else {
            self.cursor = self.bytes.len();
        }
    }
}

} // verus!
