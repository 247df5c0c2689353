use vstd::prelude::*;
use vstd::slice::slice_subrange;
use crate::storage::big_endian::be_bytes;
use crate::storage::big_endian::be_value;
use crate::storage::big_endian::bytes_to_unsigned;
use crate::storage::big_endian::lemma_be_bytes_len;
use crate::storage::big_endian::lemma_be_value_bound;
use crate::storage::big_endian::lemma_be_value_of_bytes;
use crate::storage::big_endian::lemma_pow256_values;
use crate::storage::big_endian::unsigned_to_bytes;
use crate::storage::byte_conversion::ByteConversion;

verus! {

/// The bytes of the values of a list, one value after the other.
pub open spec fn encode_all<T: ByteConversion>(values: Seq<T::V>) -> Seq<u8>
    decreases values.len(),
{
    if values.len() == 0 {
        Seq::empty()
    } else {
        T::encoded(values[0]) + encode_all::<T>(values.skip(1))
    }
}

/// The bytes of a list: the number of its values in four bytes, the most
/// significant first, and then the bytes of its values.
pub open spec fn encode_list<T: ByteConversion>(values: Seq<T::V>) -> Seq<u8> {
    be_bytes((values.len() % 0x1_0000_0000) as nat, 4) + encode_all::<T>(values)
}

/// The `count` values that the bytes hold from the cursor on, if they hold
/// exactly that many and nothing behind them.
pub open spec fn decode_items<T: ByteConversion>(bytes: Seq<u8>, cursor: int, count: nat) -> Option<
    Seq<T::V>,
>
    decreases count,
{
    if count == 0 {
        if cursor >= bytes.len() {
            Some(Seq::empty())
        } else {
            None
        }
    } else {
        let size = T::encoded_size(bytes.skip(cursor));
        if bytes.len() - cursor < size {
            None
        } else {
            match T::decoded(bytes.subrange(cursor, cursor + size)) {
                None => None,
                Some(value) => match decode_items::<T>(bytes, cursor + size, (count - 1) as nat) {
                    Some(rest) => Some(seq![value] + rest),
                    None => None,
                },
            }
        }
    }
}

/// The list that the whole of the bytes stands for, if they stand for one.
pub open spec fn decode_list<T: ByteConversion>(bytes: Seq<u8>) -> Option<Seq<T::V>> {
    if bytes.len() >= 4 {
        decode_items::<T>(bytes, 4, be_value(bytes.take(4)))
    } else {
        None
    }
}

/// Where `count` values that start at the cursor end, if the bytes are long
/// enough for them.
pub open spec fn skip_items<T: ByteConversion>(bytes: Seq<u8>, cursor: int, count: nat) -> Option<int>
    decreases count,
{
    if count == 0 {
        Some(cursor)
    } else {
        let size = T::encoded_size(bytes.skip(cursor));
        if bytes.len() - cursor < size {
            None
        } else {
            skip_items::<T>(bytes, cursor + size, (count - 1) as nat)
        }
    }
}

/// How many of the bytes the list takes that they start with; 0 when they
/// are too short for the list they announce.
pub open spec fn list_size<T: ByteConversion>(bytes: Seq<u8>) -> nat {
    if bytes.len() >= 4 {
        match skip_items::<T>(bytes, 4, be_value(bytes.take(4))) {
            Some(end) => end as nat,
            None => 0,
        }
    } else {
        0
    }
}

/// The list has fewer than 2 to the power of 32 values, and each of them
/// comes back from its bytes as it was.
pub open spec fn list_representable<T: ByteConversion>(values: Seq<T::V>) -> bool {
    &&& values.len() < 0x1_0000_0000
    &&& forall|i: int| 0 <= i < values.len() ==> T::representable(#[trigger] values[i])
}

/// The bytes of a list with one more value are the bytes of the list and
/// then those of the value.
pub proof fn lemma_encode_all_push<T: ByteConversion>(values: Seq<T::V>, value: T::V)
    ensures
        encode_all::<T>(values.push(value)) == encode_all::<T>(values) + T::encoded(value),
    decreases values.len(),
{
    let longer = values.push(value);
    if values.len() == 0 {
        assert(longer.skip(1) == Seq::<T::V>::empty());
        assert(longer[0] == value);
        assert(encode_all::<T>(Seq::<T::V>::empty()) == Seq::<u8>::empty());
        assert(encode_all::<T>(longer) == T::encoded(value) + Seq::<u8>::empty());
        assert(T::encoded(value) + Seq::<u8>::empty() == T::encoded(value));
        assert(encode_all::<T>(values) + T::encoded(value) == T::encoded(value));
    } else {
        assert(longer.skip(1) == values.skip(1).push(value));
        lemma_encode_all_push::<T>(values.skip(1), value);
        assert(longer[0] == values[0]);
        assert(T::encoded(values[0]) + (encode_all::<T>(values.skip(1)) + T::encoded(value)) == (
        T::encoded(values[0]) + encode_all::<T>(values.skip(1))) + T::encoded(value));
    }
}

/// The values of a list are read back from their bytes, and the end of
/// their bytes is found, whatever stands before the bytes; the values are
/// read back when nothing follows, the end is found whatever follows.
pub proof fn lemma_items_round_trip<T: ByteConversion>(
    before: Seq<u8>,
    values: Seq<T::V>,
    after: Seq<u8>,
)
    requires
        forall|i: int| 0 <= i < values.len() ==> T::representable(#[trigger] values[i]),
    ensures
        skip_items::<T>(
            before + encode_all::<T>(values) + after,
            before.len() as int,
            values.len(),
        ) == Some((before.len() + encode_all::<T>(values).len()) as int),
        after.len() == 0 ==> decode_items::<T>(
            before + encode_all::<T>(values) + after,
            before.len() as int,
            values.len(),
        ) == Some(values),
    decreases values.len(),
{
    let bytes = before + encode_all::<T>(values) + after;
    let cursor = before.len() as int;
    if values.len() == 0 {
        assert(encode_all::<T>(values) == Seq::<u8>::empty());
        assert(values == Seq::<T::V>::empty());
    } else {
        let first = T::encoded(values[0]);
        let rest = values.skip(1);
        let rest_bytes = encode_all::<T>(rest);
        assert(T::representable(values[0]));
        T::lemma_round_trip(values[0], rest_bytes + after);
        assert(bytes.skip(cursor) == first + (rest_bytes + after));
        assert(bytes.subrange(cursor, cursor + first.len()) == first);
        assert forall|i: int| 0 <= i < rest.len() implies T::representable(#[trigger] rest[i]) by {
            assert(rest[i] == values[i + 1]);
        }
        lemma_items_round_trip::<T>(before + first, rest, after);
        assert(before + first + rest_bytes + after == bytes);
        assert((before + first).len() == cursor + first.len());
        if after.len() == 0 {
            assert(seq![values[0]] + rest == values);
        }
    }
}

/// A representable list comes back from its bytes, and its size is read
/// off its bytes whatever follows them.
pub proof fn lemma_list_round_trip<T: ByteConversion>(values: Seq<T::V>, rest: Seq<u8>)
    requires
        list_representable::<T>(values),
    ensures
        decode_list::<T>(encode_list::<T>(values)) == Some(values),
        list_size::<T>(encode_list::<T>(values) + rest) == encode_list::<T>(values).len(),
{
    let count = values.len();
    let header = be_bytes(count, 4);
    let bytes = encode_list::<T>(values);
    lemma_pow256_values();
    lemma_be_bytes_len(count, 4);
    lemma_be_value_of_bytes(count, 4);
    assert(bytes.take(4) == header);
    assert((bytes + rest).take(4) == header);
    lemma_items_round_trip::<T>(header, values, Seq::<u8>::empty());
    assert(header + encode_all::<T>(values) + Seq::<u8>::empty() == bytes);
    lemma_items_round_trip::<T>(header, values, rest);
    assert(header + encode_all::<T>(values) + rest == bytes + rest);
}

/// The number of values that the first four bytes announce.
fn announced_count(bytes: &[u8]) -> (count: usize)
    requires
        bytes@.len() >= 4,
    ensures
        count == be_value(bytes@.take(4)),
{
    proof {
        lemma_be_value_bound(bytes@.take(4));
        lemma_pow256_values();
    }
    let number: u128 = bytes_to_unsigned(slice_subrange(bytes, 0, 4));
    assert(bytes@.subrange(0, 4) == bytes@.take(4));
    number as usize
}

/// Write a list as bytes: the number of its values and then each value.
pub fn list_as_bytes<T: ByteConversion>(values: &[T]) -> (bytes: Vec<u8>)
    ensures
        bytes@ == encode_list::<T>(values.deep_view()),
{
    let ghost model = values.deep_view();
    let count: u64 = (values.len() as u64) % 0x1_0000_0000;
    let mut bytes: Vec<u8> = unsigned_to_bytes(count as u128, 4);
    let ghost header = bytes@;
    let mut index: usize = 0;
    proof {
        assert(model.take(0) == Seq::<T::V>::empty());
        assert(header + encode_all::<T>(model.take(0)) == header);
    }
    while index < values.len()
        invariant
            index <= values@.len(),
            model == values.deep_view(),
            model.len() == values@.len(),
            bytes@ == header + encode_all::<T>(model.take(index as int)),
        decreases values@.len() - index,
    {
        let mut part: Vec<u8> = values[index].as_bytes();
        proof {
            assert(model.take(index + 1) == model.take(index as int).push(model[index as int]));
            lemma_encode_all_push::<T>(model.take(index as int), model[index as int]);
            assert(model[index as int] == values@[index as int].deep_view());
            assert(header + (encode_all::<T>(model.take(index as int)) + part@) == (header
                + encode_all::<T>(model.take(index as int))) + part@);
        }
        bytes.append(&mut part);
        index += 1;
    }
    proof {
        assert(model.take(model.len() as int) == model);
    }
    bytes
}

/// Read a list from bytes that hold it and nothing else.
pub fn list_from_bytes<T: ByteConversion>(bytes: &[u8]) -> (values: Option<Vec<T>>)
    ensures
        match values {
            Some(values) => decode_list::<T>(bytes@) == Some(values.deep_view()),
            None => decode_list::<T>(bytes@) is None,
        },
{
    if bytes.len() < 4 {
        return None;
    }
    let entry_count: usize = announced_count(bytes);
    let mut values: Vec<T> = Vec::new();
    let mut cursor: usize = 4;
    let mut found_entries: usize = 0;
    proof {
        assert(values.deep_view() == Seq::<T::V>::empty());
    }
    while found_entries < entry_count
        invariant
            4 <= cursor <= bytes@.len(),
            found_entries <= entry_count,
            values@.len() == found_entries,
            decode_list::<T>(bytes@) == match decode_items::<T>(
                bytes@,
                cursor as int,
                (entry_count - found_entries) as nat,
            ) {
                Some(rest) => Some(values.deep_view() + rest),
                None => None,
            },
        decreases entry_count - found_entries,
    {
        let t_size: usize = T::bytes_size(slice_subrange(bytes, cursor, bytes.len()));
        assert(bytes@.subrange(cursor as int, bytes@.len() as int) == bytes@.skip(cursor as int));
        if bytes.len() - cursor < t_size {
            return None;
        }
        let ghost before = values.deep_view();
        match T::from_bytes(slice_subrange(bytes, cursor, cursor + t_size)) {
            Some(value) => {
                proof {
                    let model = value.deep_view();
                    let rest = decode_items::<T>(
                        bytes@,
                        cursor + t_size,
                        (entry_count - found_entries - 1) as nat,
                    );
                    assert(values@.push(value).len() == values@.len() + 1);
                    assert(Seq::new(
                        values@.push(value).len(),
                        |i: int| values@.push(value)[i].deep_view(),
                    ) == before.push(model));
                    if rest is Some {
                        assert(before + (seq![model] + rest->Some_0) == before.push(model)
                            + rest->Some_0);
                    }
                }
                values.push(value);
            },
            None => {
                return None;
            },
        }
        cursor += t_size;
        found_entries += 1;
    }
    if cursor >= bytes.len() {
        proof {
            assert(values.deep_view() + Seq::<T::V>::empty() == values.deep_view());
        }
        Some(values)
    } else {
        None
    }
}

/// How many of the bytes the list takes that they start with.
pub fn list_bytes_size<T: ByteConversion>(source_bytes: &[u8]) -> (size: usize)
    ensures
        size == list_size::<T>(source_bytes@),
        size <= source_bytes@.len(),
{
    if source_bytes.len() < 4 {
        return 0;
    }
    let entry_count: usize = announced_count(source_bytes);
    let mut cursor: usize = 4;
    let mut found_entries: usize = 0;
    while found_entries < entry_count
        invariant
            4 <= cursor <= source_bytes@.len(),
            found_entries <= entry_count,
            entry_count == be_value(source_bytes@.take(4)),
            skip_items::<T>(source_bytes@, 4, entry_count as nat) == skip_items::<T>(
                source_bytes@,
                cursor as int,
                (entry_count - found_entries) as nat,
            ),
        decreases entry_count - found_entries,
    {
        let t_size: usize = T::bytes_size(slice_subrange(source_bytes, cursor, source_bytes.len()));
        assert(source_bytes@.subrange(cursor as int, source_bytes@.len() as int)
            == source_bytes@.skip(cursor as int));
        if source_bytes.len() - cursor < t_size {
            return 0;
        }
        cursor += t_size;
        found_entries += 1;
    }
    cursor
}

impl<T: ByteConversion> ByteConversion for Vec<T> {
    open spec fn encoded(value: Seq<T::V>) -> Seq<u8> {
        encode_list::<T>(value)
    }

    open spec fn decoded(bytes: Seq<u8>) -> Option<Seq<T::V>> {
        decode_list::<T>(bytes)
    }

    /// A list is taken off bytes that hold it and nothing else, and nothing
    /// is left then.
    open spec fn consumed(bytes: Seq<u8>) -> Option<(Seq<T::V>, Seq<u8>)> {
        match decode_list::<T>(bytes) {
            Some(values) => Some((values, Seq::empty())),
            None => None,
        }
    }

    open spec fn encoded_size(bytes: Seq<u8>) -> nat {
        list_size::<T>(bytes)
    }

    open spec fn representable(value: Seq<T::V>) -> bool {
        list_representable::<T>(value)
    }

    fn as_bytes(&self) -> (bytes: Vec<u8>) {
        let values: &[T] = self.as_slice();
        assert(values.deep_view() == self.deep_view());
        list_as_bytes::<T>(values)
    }

    fn from_bytes(bytes: &[u8]) -> (value: Option<Vec<T>>) {
        list_from_bytes::<T>(bytes)
    }

    fn from_consume_bytes(bytes: &mut Vec<u8>) -> (value: Option<Vec<T>>) {
        let value: Option<Vec<T>> = list_from_bytes::<T>(bytes.as_slice());
        if value.is_some() {
            bytes.clear();
        }
        value
    }

    fn bytes_size(source_bytes: &[u8]) -> (size: usize) {
        list_bytes_size::<T>(source_bytes)
    }

    proof fn lemma_round_trip(value: Seq<T::V>, rest: Seq<u8>) {
        lemma_list_round_trip::<T>(value, rest);
    }
}


/// The values of a list as an array of `N` values, or the list itself when
/// it does not hold exactly `N` values. Calls `TryFrom<Vec<T>>` for arrays
/// of the standard library, which hands the contents of the list over as an
/// array if its length is the length of the array, and the list back if not.
#[verifier::external_body]
fn vec_into_array<T, const N: usize>(values: Vec<T>) -> (array: Result<[T; N], Vec<T>>)
    ensures
        match array {
            Ok(array) => values@.len() == N && array@ == values@,
            Err(list) => values@.len() != N && list == values,
        },
{
    values.try_into()
}

/// The list that the bytes stand for, if it has `count` values.
pub open spec fn decode_array<T: ByteConversion>(bytes: Seq<u8>, count: nat) -> Option<Seq<T::V>> {
    match decode_list::<T>(bytes) {
        Some(values) => if values.len() == count {
            Some(values)
        } else {
            None
        },
        None => None,
    }
}

impl<T: ByteConversion, const LENGTH: usize> ByteConversion for [T; LENGTH] {
    /// An array is written as the list of its values.
    open spec fn encoded(value: Seq<T::V>) -> Seq<u8> {
        encode_list::<T>(value)
    }

    open spec fn decoded(bytes: Seq<u8>) -> Option<Seq<T::V>> {
        decode_array::<T>(bytes, LENGTH as nat)
    }

    /// An array is taken off bytes that hold it and nothing else.
    open spec fn consumed(bytes: Seq<u8>) -> Option<(Seq<T::V>, Seq<u8>)> {
        match decode_array::<T>(bytes, LENGTH as nat) {
            Some(values) => Some((values, bytes.skip(list_size::<T>(bytes) as int))),
            None => None,
        }
    }

    open spec fn encoded_size(bytes: Seq<u8>) -> nat {
        list_size::<T>(bytes)
    }

    open spec fn representable(value: Seq<T::V>) -> bool {
        value.len() == LENGTH && list_representable::<T>(value)
    }

    fn as_bytes(&self) -> (bytes: Vec<u8>) {
        let values: &[T] = self.as_slice();
        assert(values.deep_view() == self.deep_view());
        list_as_bytes::<T>(values)
    }

    fn from_bytes(bytes: &[u8]) -> (value: Option<[T; LENGTH]>) {
        match list_from_bytes::<T>(bytes) {
            Some(list) => {
                let ghost model = list.deep_view();
                match vec_into_array::<T, LENGTH>(list) {
                    Ok(array) => {
                        assert(array.deep_view() == model);
                        Some(array)
                    },
                    Err(_) => None,
                }
            },
            None => None,
        }
    }

    fn from_consume_bytes(bytes: &mut Vec<u8>) -> (value: Option<[T; LENGTH]>) {
        match list_from_bytes::<T>(bytes.as_slice()) {
            Some(list) => {
                let ghost model = list.deep_view();
                match vec_into_array::<T, LENGTH>(list) {
                    Ok(array) => {
                        assert(array.deep_view() == model);
                        let size: usize = list_bytes_size::<T>(bytes.as_slice());
                        let rest: Vec<u8> = bytes.split_off(size);
                        assert(rest@ == old(bytes)@.skip(size as int));
                        *bytes = rest;
                        Some(array)
                    },
                    Err(_) => None,
                }
            },
            None => None,
        }
    }

    fn bytes_size(source_bytes: &[u8]) -> (size: usize) {
        list_bytes_size::<T>(source_bytes)
    }

    proof fn lemma_round_trip(value: Seq<T::V>, rest: Seq<u8>) {
        lemma_list_round_trip::<T>(value, rest);
    }
}

/// The byte that a character is written as: its code point, cut down to
/// eight bits.
pub open spec fn char_code(character: char) -> u8 {
    (character as u32 % 256) as u8
}

/// A character with a code point below 256 comes back from its byte.
pub proof fn lemma_char_code(character: char)
    requires
        (character as u32) < 256,
    ensures
        char_code(character) as char == character,
{
    let code = character as u32;
    let byte = code as u8;
    assert(byte as int == character as int);
    assert((character as int) as char == character);
}

/// The bytes that the characters of a text are written as.
pub open spec fn codes_of(text: Seq<char>) -> Seq<u8> {
    Seq::new(text.len(), |i: int| char_code(text[i]))
}

/// The characters that bytes stand for: each byte is a code point.
pub open spec fn chars_of(codes: Seq<u8>) -> Seq<char> {
    Seq::new(codes.len(), |i: int| codes[i] as char)
}

/// Add a character to the end of a text. Calls `String::push` of the
/// standard library, which appends the given character to the end of the
/// string.
#[verifier::external_body]
fn push_char(text: &mut String, character: char)
    ensures
        final(text)@ == old(text)@.push(character),
{
    text.push(character);
}

/// The text that a list of bytes stands for.
fn text_of(codes: &Vec<u8>) -> (text: String)
    ensures
        text@ == chars_of(codes@),
{
    let mut text: String = String::new();
    let mut index: usize = 0;
    while index < codes.len()
        invariant
            index <= codes@.len(),
            text@ == chars_of(codes@.take(index as int)),
        decreases codes@.len() - index,
    {
        let character: char = codes[index] as char;
        proof {
            assert(chars_of(codes@.take(index + 1)) == chars_of(codes@.take(index as int)).push(
                character,
            ));
        }
        push_char(&mut text, character);
        index += 1;
    }
    proof {
        assert(codes@.take(codes@.len() as int) == codes@);
    }
    text
}

impl ByteConversion for String {
    /// A text is written as the list of the bytes of its characters.
    open spec fn encoded(value: Seq<char>) -> Seq<u8> {
        encode_list::<u8>(codes_of(value))
    }

    open spec fn decoded(bytes: Seq<u8>) -> Option<Seq<char>> {
        match decode_list::<u8>(bytes) {
            Some(codes) => Some(chars_of(codes)),
            None => None,
        }
    }

    /// A text is taken off bytes that hold it and nothing else, and
    /// nothing is left then.
    open spec fn consumed(bytes: Seq<u8>) -> Option<(Seq<char>, Seq<u8>)> {
        match decode_list::<u8>(bytes) {
            Some(codes) => Some((chars_of(codes), Seq::empty())),
            None => None,
        }
    }

    open spec fn encoded_size(bytes: Seq<u8>) -> nat {
        list_size::<u8>(bytes)
    }

    /// The text has fewer than 2 to the power of 32 characters, each with
    /// a code point below 256.
    open spec fn representable(value: Seq<char>) -> bool {
        &&& value.len() < 0x1_0000_0000
        &&& forall|i: int| 0 <= i < value.len() ==> ((#[trigger] value[i]) as u32) < 256
    }

    fn as_bytes(&self) -> (bytes: Vec<u8>) {
        let mut codes: Vec<u8> = Vec::new();
        let text: &str = self.as_str();
        for character in iterator: text.chars()
            invariant
                iterator.seq() == text@,
                codes@ == codes_of(text@.take(iterator.index() as int)),
        {
            let code: u8 = (character as u32 % 256) as u8;
            proof {
                let done = iterator.index() as int;
                assert(codes_of(text@.take(done + 1)) == codes_of(text@.take(done)).push(code));
            }
            codes.push(code);
        }
        let values: &[u8] = codes.as_slice();
        proof {
            assert(text@.take(text@.len() as int) == text@);
            assert(values.deep_view() == codes@);
        }
        list_as_bytes::<u8>(values)
    }

    fn from_bytes(bytes: &[u8]) -> (value: Option<String>) {
        match list_from_bytes::<u8>(bytes) {
            Some(codes) => {
                assert(codes.deep_view() == codes@);
                Some(text_of(&codes))
            },
            None => None,
        }
    }

    fn from_consume_bytes(bytes: &mut Vec<u8>) -> (value: Option<String>) {
        match list_from_bytes::<u8>(bytes.as_slice()) {
            Some(codes) => {
                assert(codes.deep_view() == codes@);
                bytes.clear();
                Some(text_of(&codes))
            },
            None => None,
        }
    }

    fn bytes_size(source_bytes: &[u8]) -> (size: usize) {
        list_bytes_size::<u8>(source_bytes)
    }

    proof fn lemma_round_trip(value: Seq<char>, rest: Seq<u8>) {
        lemma_list_round_trip::<u8>(codes_of(value), rest);
        assert(chars_of(codes_of(value)) == value) by {
            assert forall|i: int| 0 <= i < value.len() implies chars_of(codes_of(value))[i]
                == value[i] by {
                lemma_char_code(value[i]);
            }
        }
    }
}

} // verus!
