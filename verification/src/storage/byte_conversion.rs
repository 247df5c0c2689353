use vstd::prelude::*;
use crate::storage::big_endian::be_bytes;
use crate::storage::big_endian::be_value;
use crate::storage::big_endian::bytes_to_unsigned;
use crate::storage::big_endian::from_twos_complement;
use crate::storage::big_endian::lemma_be_bytes_len;
use crate::storage::big_endian::lemma_be_value_bound;
use crate::storage::big_endian::lemma_be_value_of_bytes;
use crate::storage::big_endian::lemma_pow256_values;
use crate::storage::big_endian::lemma_twos_complement;
use crate::storage::big_endian::twos_complement;
use crate::storage::big_endian::unsigned_to_bytes;

verus! {

/// A type whose values can be written as bytes and read back from them.
///
/// The model functions say what the bytes are; the executable functions
/// compute them. A value is told by its deep view.
pub trait ByteConversion: Clone + DeepView {
    /// The bytes that a value is written as.
    spec fn encoded(value: Self::V) -> Seq<u8>;

    /// The value that the whole of the bytes stands for, if they stand for
    /// one.
    spec fn decoded(bytes: Seq<u8>) -> Option<Self::V>;

    /// The value that the bytes start with and the bytes that are left
    /// when it is taken off, if they start with one that can be taken off.
    spec fn consumed(bytes: Seq<u8>) -> Option<(Self::V, Seq<u8>)>;

    /// How many of the bytes the value takes that they start with.
    spec fn encoded_size(bytes: Seq<u8>) -> nat;

    /// The value is one that comes back from its bytes as it was.
    spec fn representable(value: Self::V) -> bool;

    /// Represent the datatype as bytes.
    fn as_bytes(&self) -> (bytes: Vec<u8>)
        ensures
            bytes@ == Self::encoded(self.deep_view()),
    ;

    /// Create the datatype from bytes.
    fn from_bytes(bytes: &[u8]) -> (value: Option<Self>)
        ensures
            match value {
                Some(value) => Self::decoded(bytes@) == Some(value.deep_view()),
                None => Self::decoded(bytes@) is None,
            },
    ;

    /// Create the value from a mutable list of bytes. Consumes the bytes used for the value.
    fn from_consume_bytes(bytes: &mut Vec<u8>) -> (value: Option<Self>)
        ensures
            match value {
                Some(value) => Self::consumed(old(bytes)@) == Some((value.deep_view(), final(bytes)@)),
                None => Self::consumed(old(bytes)@) is None && final(bytes)@ == old(bytes)@,
            },
    ;

    /// Get the size in bytes of the type.
    fn bytes_size(source_bytes: &[u8]) -> (size: usize)
        ensures
            size == Self::encoded_size(source_bytes@),
    ;

    /// A representable value comes back from its bytes, whether they stand
    /// alone or are taken off the front of more bytes, and its size is
    /// read off its bytes whatever follows them.
    proof fn lemma_round_trip(value: Self::V, rest: Seq<u8>)
        requires
            Self::representable(value),
        ensures
            Self::decoded(Self::encoded(value)) == Some(value),
            Self::encoded_size(Self::encoded(value) + rest) == Self::encoded(value).len(),
    ;
}

impl ByteConversion for bool {
    open spec fn encoded(value: bool) -> Seq<u8> {
        seq![if value { 1u8 } else { 0u8 }]
    }

    open spec fn decoded(bytes: Seq<u8>) -> Option<bool> {
        if bytes.len() == 1 {
            Some(bytes[0] != 0)
        } else {
            None
        }
    }

    open spec fn consumed(bytes: Seq<u8>) -> Option<(bool, Seq<u8>)> {
        if bytes.len() > 0 {
            Some((bytes[0] != 0, bytes.skip(1)))
        } else {
            None
        }
    }

    open spec fn encoded_size(bytes: Seq<u8>) -> nat {
        1
    }

    open spec fn representable(value: bool) -> bool {
        true
    }

    fn as_bytes(&self) -> (bytes: Vec<u8>) {
        let mut bytes: Vec<u8> = Vec::new();
        bytes.push(if *self { 1 } else { 0 });
        assert(bytes@ == seq![if *self { 1u8 } else { 0u8 }]);
        bytes
    }

    fn from_bytes(bytes: &[u8]) -> (value: Option<bool>) {
        if bytes.len() == 1 {
            Some(bytes[0] != 0)
        } else {
            None
        }
    }

    fn from_consume_bytes(bytes: &mut Vec<u8>) -> (value: Option<bool>) {
        if bytes.len() > 0 {
            let first: u8 = bytes.remove(0);
            assert(bytes@ == old(bytes)@.skip(1));
            Some(first != 0)
        } else {
            None
        }
    }

    fn bytes_size(source_bytes: &[u8]) -> (size: usize) {
        1
    }

    proof fn lemma_round_trip(value: bool, rest: Seq<u8>) {
    }
}

impl ByteConversion for u8 {
    /// The 1 bytes of the number, the most significant first.
    open spec fn encoded(value: u8) -> Seq<u8> {
        be_bytes(value as nat, 1)
    }

    open spec fn decoded(bytes: Seq<u8>) -> Option<u8> {
        if bytes.len() == 1 {
            Some(be_value(bytes) as u8)
        } else {
            None
        }
    }

    open spec fn consumed(bytes: Seq<u8>) -> Option<(u8, Seq<u8>)> {
        if bytes.len() >= 1 {
            Some((be_value(bytes.take(1)) as u8, bytes.skip(1)))
        } else {
            None
        }
    }

    open spec fn encoded_size(bytes: Seq<u8>) -> nat {
        1
    }

    open spec fn representable(value: u8) -> bool {
        true
    }

    fn as_bytes(&self) -> (bytes: Vec<u8>) {
        unsigned_to_bytes(*self as u128, 1)
    }

    fn from_bytes(bytes: &[u8]) -> (value: Option<u8>) {
        if bytes.len() == 1 {
            proof {
                lemma_be_value_bound(bytes@);
                lemma_pow256_values();
            }
            let number: u128 = bytes_to_unsigned(bytes);
            Some(number as u8)
        } else {
            None
        }
    }

    fn from_consume_bytes(bytes: &mut Vec<u8>) -> (value: Option<u8>) {
        if bytes.len() >= 1 {
            let rest: Vec<u8> = bytes.split_off(1);
            proof {
                lemma_be_value_bound(bytes@);
                lemma_pow256_values();
                assert(bytes@ == old(bytes)@.take(1));
                assert(rest@ == old(bytes)@.skip(1));
            }
            let number: u128 = bytes_to_unsigned(bytes.as_slice());
            *bytes = rest;
            Some(number as u8)
        } else {
            None
        }
    }

    fn bytes_size(source_bytes: &[u8]) -> (size: usize) {
        1
    }

    proof fn lemma_round_trip(value: u8, rest: Seq<u8>) {
        lemma_pow256_values();
        lemma_be_bytes_len(value as nat, 1);
        lemma_be_value_of_bytes(value as nat, 1);
    }
}

impl ByteConversion for u16 {
    /// The 2 bytes of the number, the most significant first.
    open spec fn encoded(value: u16) -> Seq<u8> {
        be_bytes(value as nat, 2)
    }

    open spec fn decoded(bytes: Seq<u8>) -> Option<u16> {
        if bytes.len() == 2 {
            Some(be_value(bytes) as u16)
        } else {
            None
        }
    }

    open spec fn consumed(bytes: Seq<u8>) -> Option<(u16, Seq<u8>)> {
        if bytes.len() >= 2 {
            Some((be_value(bytes.take(2)) as u16, bytes.skip(2)))
        } else {
            None
        }
    }

    open spec fn encoded_size(bytes: Seq<u8>) -> nat {
        2
    }

    open spec fn representable(value: u16) -> bool {
        true
    }

    fn as_bytes(&self) -> (bytes: Vec<u8>) {
        unsigned_to_bytes(*self as u128, 2)
    }

    fn from_bytes(bytes: &[u8]) -> (value: Option<u16>) {
        if bytes.len() == 2 {
            proof {
                lemma_be_value_bound(bytes@);
                lemma_pow256_values();
            }
            let number: u128 = bytes_to_unsigned(bytes);
            Some(number as u16)
        } else {
            None
        }
    }

    fn from_consume_bytes(bytes: &mut Vec<u8>) -> (value: Option<u16>) {
        if bytes.len() >= 2 {
            let rest: Vec<u8> = bytes.split_off(2);
            proof {
                lemma_be_value_bound(bytes@);
                lemma_pow256_values();
                assert(bytes@ == old(bytes)@.take(2));
                assert(rest@ == old(bytes)@.skip(2));
            }
            let number: u128 = bytes_to_unsigned(bytes.as_slice());
            *bytes = rest;
            Some(number as u16)
        } else {
            None
        }
    }

    fn bytes_size(source_bytes: &[u8]) -> (size: usize) {
        2
    }

    proof fn lemma_round_trip(value: u16, rest: Seq<u8>) {
        lemma_pow256_values();
        lemma_be_bytes_len(value as nat, 2);
        lemma_be_value_of_bytes(value as nat, 2);
    }
}

impl ByteConversion for u32 {
    /// The 4 bytes of the number, the most significant first.
    open spec fn encoded(value: u32) -> Seq<u8> {
        be_bytes(value as nat, 4)
    }

    open spec fn decoded(bytes: Seq<u8>) -> Option<u32> {
        if bytes.len() == 4 {
            Some(be_value(bytes) as u32)
        } else {
            None
        }
    }

    open spec fn consumed(bytes: Seq<u8>) -> Option<(u32, Seq<u8>)> {
        if bytes.len() >= 4 {
            Some((be_value(bytes.take(4)) as u32, bytes.skip(4)))
        } else {
            None
        }
    }

    open spec fn encoded_size(bytes: Seq<u8>) -> nat {
        4
    }

    open spec fn representable(value: u32) -> bool {
        true
    }

    fn as_bytes(&self) -> (bytes: Vec<u8>) {
        unsigned_to_bytes(*self as u128, 4)
    }

    fn from_bytes(bytes: &[u8]) -> (value: Option<u32>) {
        if bytes.len() == 4 {
            proof {
                lemma_be_value_bound(bytes@);
                lemma_pow256_values();
            }
            let number: u128 = bytes_to_unsigned(bytes);
            Some(number as u32)
        } else {
            None
        }
    }

    fn from_consume_bytes(bytes: &mut Vec<u8>) -> (value: Option<u32>) {
        if bytes.len() >= 4 {
            let rest: Vec<u8> = bytes.split_off(4);
            proof {
                lemma_be_value_bound(bytes@);
                lemma_pow256_values();
                assert(bytes@ == old(bytes)@.take(4));
                assert(rest@ == old(bytes)@.skip(4));
            }
            let number: u128 = bytes_to_unsigned(bytes.as_slice());
            *bytes = rest;
            Some(number as u32)
        } else {
            None
        }
    }

    fn bytes_size(source_bytes: &[u8]) -> (size: usize) {
        4
    }

    proof fn lemma_round_trip(value: u32, rest: Seq<u8>) {
        lemma_pow256_values();
        lemma_be_bytes_len(value as nat, 4);
        lemma_be_value_of_bytes(value as nat, 4);
    }
}

impl ByteConversion for u64 {
    /// The 8 bytes of the number, the most significant first.
    open spec fn encoded(value: u64) -> Seq<u8> {
        be_bytes(value as nat, 8)
    }

    open spec fn decoded(bytes: Seq<u8>) -> Option<u64> {
        if bytes.len() == 8 {
            Some(be_value(bytes) as u64)
        } else {
            None
        }
    }

    open spec fn consumed(bytes: Seq<u8>) -> Option<(u64, Seq<u8>)> {
        if bytes.len() >= 8 {
            Some((be_value(bytes.take(8)) as u64, bytes.skip(8)))
        } else {
            None
        }
    }

    open spec fn encoded_size(bytes: Seq<u8>) -> nat {
        8
    }

    open spec fn representable(value: u64) -> bool {
        true
    }

    fn as_bytes(&self) -> (bytes: Vec<u8>) {
        unsigned_to_bytes(*self as u128, 8)
    }

    fn from_bytes(bytes: &[u8]) -> (value: Option<u64>) {
        if bytes.len() == 8 {
            proof {
                lemma_be_value_bound(bytes@);
                lemma_pow256_values();
            }
            let number: u128 = bytes_to_unsigned(bytes);
            Some(number as u64)
        } else {
            None
        }
    }

    fn from_consume_bytes(bytes: &mut Vec<u8>) -> (value: Option<u64>) {
        if bytes.len() >= 8 {
            let rest: Vec<u8> = bytes.split_off(8);
            proof {
                lemma_be_value_bound(bytes@);
                lemma_pow256_values();
                assert(bytes@ == old(bytes)@.take(8));
                assert(rest@ == old(bytes)@.skip(8));
            }
            let number: u128 = bytes_to_unsigned(bytes.as_slice());
            *bytes = rest;
            Some(number as u64)
        } else {
            None
        }
    }

    fn bytes_size(source_bytes: &[u8]) -> (size: usize) {
        8
    }

    proof fn lemma_round_trip(value: u64, rest: Seq<u8>) {
        lemma_pow256_values();
        lemma_be_bytes_len(value as nat, 8);
        lemma_be_value_of_bytes(value as nat, 8);
    }
}

impl ByteConversion for u128 {
    /// The 16 bytes of the number, the most significant first.
    open spec fn encoded(value: u128) -> Seq<u8> {
        be_bytes(value as nat, 16)
    }

    open spec fn decoded(bytes: Seq<u8>) -> Option<u128> {
        if bytes.len() == 16 {
            Some(be_value(bytes) as u128)
        } else {
            None
        }
    }

    open spec fn consumed(bytes: Seq<u8>) -> Option<(u128, Seq<u8>)> {
        if bytes.len() >= 16 {
            Some((be_value(bytes.take(16)) as u128, bytes.skip(16)))
        } else {
            None
        }
    }

    open spec fn encoded_size(bytes: Seq<u8>) -> nat {
        16
    }

    open spec fn representable(value: u128) -> bool {
        true
    }

    fn as_bytes(&self) -> (bytes: Vec<u8>) {
        unsigned_to_bytes(*self, 16)
    }

    fn from_bytes(bytes: &[u8]) -> (value: Option<u128>) {
        if bytes.len() == 16 {
            proof {
                lemma_be_value_bound(bytes@);
                lemma_pow256_values();
            }
            let number: u128 = bytes_to_unsigned(bytes);
            Some(number)
        } else {
            None
        }
    }

    fn from_consume_bytes(bytes: &mut Vec<u8>) -> (value: Option<u128>) {
        if bytes.len() >= 16 {
            let rest: Vec<u8> = bytes.split_off(16);
            proof {
                lemma_be_value_bound(bytes@);
                lemma_pow256_values();
                assert(bytes@ == old(bytes)@.take(16));
                assert(rest@ == old(bytes)@.skip(16));
            }
            let number: u128 = bytes_to_unsigned(bytes.as_slice());
            *bytes = rest;
            Some(number)
        } else {
            None
        }
    }

    fn bytes_size(source_bytes: &[u8]) -> (size: usize) {
        16
    }

    proof fn lemma_round_trip(value: u128, rest: Seq<u8>) {
        lemma_pow256_values();
        lemma_be_bytes_len(value as nat, 16);
        lemma_be_value_of_bytes(value as nat, 16);
    }
}

impl ByteConversion for i8 {
    /// The 1 bytes of the number in two's complement, the most
    /// significant first.
    open spec fn encoded(value: i8) -> Seq<u8> {
        be_bytes(twos_complement(value as int, 1), 1)
    }

    open spec fn decoded(bytes: Seq<u8>) -> Option<i8> {
        if bytes.len() == 1 {
            Some(from_twos_complement(be_value(bytes), 1) as i8)
        } else {
            None
        }
    }

    open spec fn consumed(bytes: Seq<u8>) -> Option<(i8, Seq<u8>)> {
        if bytes.len() >= 1 {
            Some((from_twos_complement(be_value(bytes.take(1)), 1) as i8, bytes.skip(1)))
        } else {
            None
        }
    }

    open spec fn encoded_size(bytes: Seq<u8>) -> nat {
        1
    }

    open spec fn representable(value: i8) -> bool {
        true
    }

    fn as_bytes(&self) -> (bytes: Vec<u8>) {
        proof {
            lemma_pow256_values();
        }
        let number: u128 = if *self >= 0 {
            *self as u128
        } else {
            (*self - i8::MIN) as u128 + 0x80
        };
        unsigned_to_bytes(number, 1)
    }

    fn from_bytes(bytes: &[u8]) -> (value: Option<i8>) {
        if bytes.len() == 1 {
            proof {
                lemma_be_value_bound(bytes@);
                lemma_pow256_values();
            }
            let number: u128 = bytes_to_unsigned(bytes);
            if number < 0x80 {
                Some(number as i8)
            } else {
                Some((number - 0x80) as i8 + i8::MIN)
            }
        } else {
            None
        }
    }

    fn from_consume_bytes(bytes: &mut Vec<u8>) -> (value: Option<i8>) {
        if bytes.len() >= 1 {
            let rest: Vec<u8> = bytes.split_off(1);
            proof {
                lemma_be_value_bound(bytes@);
                lemma_pow256_values();
                assert(bytes@ == old(bytes)@.take(1));
                assert(rest@ == old(bytes)@.skip(1));
            }
            let number: u128 = bytes_to_unsigned(bytes.as_slice());
            *bytes = rest;
            if number < 0x80 {
                Some(number as i8)
            } else {
                Some((number - 0x80) as i8 + i8::MIN)
            }
        } else {
            None
        }
    }

    fn bytes_size(source_bytes: &[u8]) -> (size: usize) {
        1
    }

    proof fn lemma_round_trip(value: i8, rest: Seq<u8>) {
        lemma_pow256_values();
        lemma_twos_complement(value as int, 1);
        lemma_be_bytes_len(twos_complement(value as int, 1), 1);
        lemma_be_value_of_bytes(twos_complement(value as int, 1), 1);
    }
}

impl ByteConversion for i16 {
    /// The 2 bytes of the number in two's complement, the most
    /// significant first.
    open spec fn encoded(value: i16) -> Seq<u8> {
        be_bytes(twos_complement(value as int, 2), 2)
    }

    open spec fn decoded(bytes: Seq<u8>) -> Option<i16> {
        if bytes.len() == 2 {
            Some(from_twos_complement(be_value(bytes), 2) as i16)
        } else {
            None
        }
    }

    open spec fn consumed(bytes: Seq<u8>) -> Option<(i16, Seq<u8>)> {
        if bytes.len() >= 2 {
            Some((from_twos_complement(be_value(bytes.take(2)), 2) as i16, bytes.skip(2)))
        } else {
            None
        }
    }

    open spec fn encoded_size(bytes: Seq<u8>) -> nat {
        2
    }

    open spec fn representable(value: i16) -> bool {
        true
    }

    fn as_bytes(&self) -> (bytes: Vec<u8>) {
        proof {
            lemma_pow256_values();
        }
        let number: u128 = if *self >= 0 {
            *self as u128
        } else {
            (*self - i16::MIN) as u128 + 0x8000
        };
        unsigned_to_bytes(number, 2)
    }

    fn from_bytes(bytes: &[u8]) -> (value: Option<i16>) {
        if bytes.len() == 2 {
            proof {
                lemma_be_value_bound(bytes@);
                lemma_pow256_values();
            }
            let number: u128 = bytes_to_unsigned(bytes);
            if number < 0x8000 {
                Some(number as i16)
            } else {
                Some((number - 0x8000) as i16 + i16::MIN)
            }
        } else {
            None
        }
    }

    fn from_consume_bytes(bytes: &mut Vec<u8>) -> (value: Option<i16>) {
        if bytes.len() >= 2 {
            let rest: Vec<u8> = bytes.split_off(2);
            proof {
                lemma_be_value_bound(bytes@);
                lemma_pow256_values();
                assert(bytes@ == old(bytes)@.take(2));
                assert(rest@ == old(bytes)@.skip(2));
            }
            let number: u128 = bytes_to_unsigned(bytes.as_slice());
            *bytes = rest;
            if number < 0x8000 {
                Some(number as i16)
            } else {
                Some((number - 0x8000) as i16 + i16::MIN)
            }
        } else {
            None
        }
    }

    fn bytes_size(source_bytes: &[u8]) -> (size: usize) {
        2
    }

    proof fn lemma_round_trip(value: i16, rest: Seq<u8>) {
        lemma_pow256_values();
        lemma_twos_complement(value as int, 2);
        lemma_be_bytes_len(twos_complement(value as int, 2), 2);
        lemma_be_value_of_bytes(twos_complement(value as int, 2), 2);
    }
}

impl ByteConversion for i32 {
    /// The 4 bytes of the number in two's complement, the most
    /// significant first.
    open spec fn encoded(value: i32) -> Seq<u8> {
        be_bytes(twos_complement(value as int, 4), 4)
    }

    open spec fn decoded(bytes: Seq<u8>) -> Option<i32> {
        if bytes.len() == 4 {
            Some(from_twos_complement(be_value(bytes), 4) as i32)
        } else {
            None
        }
    }

    open spec fn consumed(bytes: Seq<u8>) -> Option<(i32, Seq<u8>)> {
        if bytes.len() >= 4 {
            Some((from_twos_complement(be_value(bytes.take(4)), 4) as i32, bytes.skip(4)))
        } else {
            None
        }
    }

    open spec fn encoded_size(bytes: Seq<u8>) -> nat {
        4
    }

    open spec fn representable(value: i32) -> bool {
        true
    }

    fn as_bytes(&self) -> (bytes: Vec<u8>) {
        proof {
            lemma_pow256_values();
        }
        let number: u128 = if *self >= 0 {
            *self as u128
        } else {
            (*self - i32::MIN) as u128 + 0x80000000
        };
        unsigned_to_bytes(number, 4)
    }

    fn from_bytes(bytes: &[u8]) -> (value: Option<i32>) {
        if bytes.len() == 4 {
            proof {
                lemma_be_value_bound(bytes@);
                lemma_pow256_values();
            }
            let number: u128 = bytes_to_unsigned(bytes);
            if number < 0x80000000 {
                Some(number as i32)
            } else {
                Some((number - 0x80000000) as i32 + i32::MIN)
            }
        } else {
            None
        }
    }

    fn from_consume_bytes(bytes: &mut Vec<u8>) -> (value: Option<i32>) {
        if bytes.len() >= 4 {
            let rest: Vec<u8> = bytes.split_off(4);
            proof {
                lemma_be_value_bound(bytes@);
                lemma_pow256_values();
                assert(bytes@ == old(bytes)@.take(4));
                assert(rest@ == old(bytes)@.skip(4));
            }
            let number: u128 = bytes_to_unsigned(bytes.as_slice());
            *bytes = rest;
            if number < 0x80000000 {
                Some(number as i32)
            } else {
                Some((number - 0x80000000) as i32 + i32::MIN)
            }
        } else {
            None
        }
    }

    fn bytes_size(source_bytes: &[u8]) -> (size: usize) {
        4
    }

    proof fn lemma_round_trip(value: i32, rest: Seq<u8>) {
        lemma_pow256_values();
        lemma_twos_complement(value as int, 4);
        lemma_be_bytes_len(twos_complement(value as int, 4), 4);
        lemma_be_value_of_bytes(twos_complement(value as int, 4), 4);
    }
}

impl ByteConversion for i64 {
    /// The 8 bytes of the number in two's complement, the most
    /// significant first.
    open spec fn encoded(value: i64) -> Seq<u8> {
        be_bytes(twos_complement(value as int, 8), 8)
    }

    open spec fn decoded(bytes: Seq<u8>) -> Option<i64> {
        if bytes.len() == 8 {
            Some(from_twos_complement(be_value(bytes), 8) as i64)
        } else {
            None
        }
    }

    open spec fn consumed(bytes: Seq<u8>) -> Option<(i64, Seq<u8>)> {
        if bytes.len() >= 8 {
            Some((from_twos_complement(be_value(bytes.take(8)), 8) as i64, bytes.skip(8)))
        } else {
            None
        }
    }

    open spec fn encoded_size(bytes: Seq<u8>) -> nat {
        8
    }

    open spec fn representable(value: i64) -> bool {
        true
    }

    fn as_bytes(&self) -> (bytes: Vec<u8>) {
        proof {
            lemma_pow256_values();
        }
        let number: u128 = if *self >= 0 {
            *self as u128
        } else {
            (*self - i64::MIN) as u128 + 0x8000000000000000
        };
        unsigned_to_bytes(number, 8)
    }

    fn from_bytes(bytes: &[u8]) -> (value: Option<i64>) {
        if bytes.len() == 8 {
            proof {
                lemma_be_value_bound(bytes@);
                lemma_pow256_values();
            }
            let number: u128 = bytes_to_unsigned(bytes);
            if number < 0x8000000000000000 {
                Some(number as i64)
            } else {
                Some((number - 0x8000000000000000) as i64 + i64::MIN)
            }
        } else {
            None
        }
    }

    fn from_consume_bytes(bytes: &mut Vec<u8>) -> (value: Option<i64>) {
        if bytes.len() >= 8 {
            let rest: Vec<u8> = bytes.split_off(8);
            proof {
                lemma_be_value_bound(bytes@);
                lemma_pow256_values();
                assert(bytes@ == old(bytes)@.take(8));
                assert(rest@ == old(bytes)@.skip(8));
            }
            let number: u128 = bytes_to_unsigned(bytes.as_slice());
            *bytes = rest;
            if number < 0x8000000000000000 {
                Some(number as i64)
            } else {
                Some((number - 0x8000000000000000) as i64 + i64::MIN)
            }
        } else {
            None
        }
    }

    fn bytes_size(source_bytes: &[u8]) -> (size: usize) {
        8
    }

    proof fn lemma_round_trip(value: i64, rest: Seq<u8>) {
        lemma_pow256_values();
        lemma_twos_complement(value as int, 8);
        lemma_be_bytes_len(twos_complement(value as int, 8), 8);
        lemma_be_value_of_bytes(twos_complement(value as int, 8), 8);
    }
}

impl ByteConversion for i128 {
    /// The 16 bytes of the number in two's complement, the most
    /// significant first.
    open spec fn encoded(value: i128) -> Seq<u8> {
        be_bytes(twos_complement(value as int, 16), 16)
    }

    open spec fn decoded(bytes: Seq<u8>) -> Option<i128> {
        if bytes.len() == 16 {
            Some(from_twos_complement(be_value(bytes), 16) as i128)
        } else {
            None
        }
    }

    open spec fn consumed(bytes: Seq<u8>) -> Option<(i128, Seq<u8>)> {
        if bytes.len() >= 16 {
            Some((from_twos_complement(be_value(bytes.take(16)), 16) as i128, bytes.skip(16)))
        } else {
            None
        }
    }

    open spec fn encoded_size(bytes: Seq<u8>) -> nat {
        16
    }

    open spec fn representable(value: i128) -> bool {
        true
    }

    fn as_bytes(&self) -> (bytes: Vec<u8>) {
        proof {
            lemma_pow256_values();
        }
        let number: u128 = if *self >= 0 {
            *self as u128
        } else {
            (*self - i128::MIN) as u128 + 0x80000000000000000000000000000000
        };
        unsigned_to_bytes(number, 16)
    }

    fn from_bytes(bytes: &[u8]) -> (value: Option<i128>) {
        if bytes.len() == 16 {
            proof {
                lemma_be_value_bound(bytes@);
                lemma_pow256_values();
            }
            let number: u128 = bytes_to_unsigned(bytes);
            if number < 0x80000000000000000000000000000000 {
                Some(number as i128)
            } else {
                Some((number - 0x80000000000000000000000000000000) as i128 + i128::MIN)
            }
        } else {
            None
        }
    }

    fn from_consume_bytes(bytes: &mut Vec<u8>) -> (value: Option<i128>) {
        if bytes.len() >= 16 {
            let rest: Vec<u8> = bytes.split_off(16);
            proof {
                lemma_be_value_bound(bytes@);
                lemma_pow256_values();
                assert(bytes@ == old(bytes)@.take(16));
                assert(rest@ == old(bytes)@.skip(16));
            }
            let number: u128 = bytes_to_unsigned(bytes.as_slice());
            *bytes = rest;
            if number < 0x80000000000000000000000000000000 {
                Some(number as i128)
            } else {
                Some((number - 0x80000000000000000000000000000000) as i128 + i128::MIN)
            }
        } else {
            None
        }
    }

    fn bytes_size(source_bytes: &[u8]) -> (size: usize) {
        16
    }

    proof fn lemma_round_trip(value: i128, rest: Seq<u8>) {
        lemma_pow256_values();
        lemma_twos_complement(value as int, 16);
        lemma_be_bytes_len(twos_complement(value as int, 16), 16);
        lemma_be_value_of_bytes(twos_complement(value as int, 16), 16);
    }
}

} // verus!
