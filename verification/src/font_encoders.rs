use vstd::prelude::*;

verus! {

/// Something that knows which glyph of a font stands for a character.
pub trait FontEncoder {
    /// What has to hold of the encoder for a look-up to go through.
    spec fn usable(&self) -> bool;

    /// The glyph that stands for the character, if the encoder knows one.
    spec fn glyph_of(&self, character: char) -> Option<u16>;

    /// Try to get a glyph ID for the given character.
    fn glyph_id_for_char(&self, character: char) -> (glyph: Option<u16>)
        requires
            self.usable(),
        ensures
            glyph == self.glyph_of(character),
    ;
}

/// A character map in segments: each segment covers the codes from its
/// start code to its end code and maps them either by adding a delta or
/// through a table of glyph IDs.
pub struct FontEncoderFormat4 {
    pub start_codes: Vec<u16>,
    pub end_codes: Vec<u16>,
    pub id_deltas: Vec<i16>,
    pub id_range_offsets: Vec<u16>,
    pub glyph_id_array: Vec<u16>,
}

/// A number brought into the range of 16 bits by adding or taking off
/// multiples of 65536.
pub open spec fn wrap16(value: int) -> u16 {
    (value % 0x1_0000) as u16
}

/// The code of a character, cut down to 16 bits.
pub open spec fn code_of(character: char) -> int {
    (character as u32 % 0x1_0000) as int
}

impl FontEncoderFormat4 {
    /// Every segment has a start code, an end code, a delta and a range
    /// offset.
    pub open spec fn wf(&self) -> bool {
        &&& self.end_codes@.len() == self.start_codes@.len()
        &&& self.id_deltas@.len() == self.start_codes@.len()
        &&& self.id_range_offsets@.len() == self.start_codes@.len()
    }

    /// The place in the table of glyph IDs that a segment with a range
    /// offset points to for a code.
    pub open spec fn table_index(&self, code: int, segment: int) -> int {
        self.id_range_offsets@[segment] / 2 + (code - self.start_codes@[segment]) - (
        self.id_range_offsets@.len() - segment)
    }

    /// The glyph that a segment gives for a code that it covers: the code
    /// plus the delta where the segment has no range offset; otherwise the
    /// glyph ID that the table holds for the code, plus the delta, and none
    /// where the table holds 0 or is too short.
    pub open spec fn segment_glyph(&self, code: int, segment: int) -> Option<u16> {
        if self.id_range_offsets@[segment] == 0 {
            Some(wrap16(code + self.id_deltas@[segment]))
        } else {
            let index = self.table_index(code, segment);
            if index < 0 || index >= self.glyph_id_array@.len() {
                None
            } else if self.glyph_id_array@[index] == 0 {
                None
            } else {
                Some(wrap16(self.glyph_id_array@[index] + self.id_deltas@[segment]))
            }
        }
    }

    /// The glyph that the first segment from `from` on that covers the code
    /// gives for it.
    pub open spec fn glyph_from(&self, code: int, from: int) -> Option<u16>
        decreases self.start_codes@.len() - from,
    {
        if from < 0 || from >= self.start_codes@.len() {
            None
        } else if code < self.start_codes@[from] || code > self.end_codes@[from] {
            self.glyph_from(code, from + 1)
        } else {
            self.segment_glyph(code, from)
        }
    }

    /// Create a new encoder.
    pub fn new(
        start_codes: Vec<u16>,
        end_codes: Vec<u16>,
        id_deltas: Vec<i16>,
        id_range_offsets: Vec<u16>,
        glyph_id_array: Vec<u16>,
    ) -> (encoder: FontEncoderFormat4)
        ensures
            encoder.start_codes == start_codes,
            encoder.end_codes == end_codes,
            encoder.id_deltas == id_deltas,
            encoder.id_range_offsets == id_range_offsets,
            encoder.glyph_id_array == glyph_id_array,
    {
        FontEncoderFormat4 { start_codes, end_codes, id_deltas, id_range_offsets, glyph_id_array }
    }
}

/// Bring the sum of a 16 bit number and a delta into the range of 16 bits.
fn wrapped_sum(value: u16, delta: i16) -> (sum: u16)
    ensures
        sum == wrap16(value + delta),
{
    let total: i32 = value as i32 + delta as i32;
    if total < 0 {
        proof {
            vstd::arithmetic::div_mod::lemma_fundamental_div_mod_converse(
                total as int,
                0x1_0000,
                -1,
                total + 0x1_0000,
            );
        }
        (total + 0x1_0000) as u16
    } else if total >= 0x1_0000 {
        proof {
            vstd::arithmetic::div_mod::lemma_fundamental_div_mod_converse(
                total as int,
                0x1_0000,
                1,
                total - 0x1_0000,
            );
        }
        (total - 0x1_0000) as u16
    } else {
        proof {
            vstd::arithmetic::div_mod::lemma_fundamental_div_mod_converse(
                total as int,
                0x1_0000,
                0,
                total as int,
            );
        }
        total as u16
    }
}

impl FontEncoder for FontEncoderFormat4 {
    open spec fn usable(&self) -> bool {
        self.wf()
    }

    open spec fn glyph_of(&self, character: char) -> Option<u16> {
        self.glyph_from(code_of(character), 0)
    }

    /// Try to get a glyph ID for the given character.
    fn glyph_id_for_char(&self, character: char) -> (glyph: Option<u16>) {
        let character_code: u16 = (character as u32 % 0x1_0000) as u16;
        let mut code_index: usize = 0;
        while code_index < self.start_codes.len()
            invariant
                self.wf(),
                code_index <= self.start_codes@.len(),
                character_code == code_of(character),
                self.glyph_of(character) == self.glyph_from(character_code as int, code_index as int),
            decreases self.start_codes@.len() - code_index,
        {
            if character_code < self.start_codes[code_index] || character_code
                > self.end_codes[code_index] {
                code_index += 1;
                continue ;
            }
            let range_offset: u16 = self.id_range_offsets[code_index];
            if range_offset == 0 {
                return Some(wrapped_sum(character_code, self.id_deltas[code_index]));
            }
            let forward: usize = (range_offset as usize / 2) + (character_code
                - self.start_codes[code_index]) as usize;
            let back: usize = self.id_range_offsets.len() - code_index;
            if forward < back {
                return None;
            }
            let glyph_id_index: usize = forward - back;
            if glyph_id_index >= self.glyph_id_array.len() {
                return None;
            }
            let gid: u16 = self.glyph_id_array[glyph_id_index];
            if gid == 0 {
                return None;
            }
            return Some(wrapped_sum(gid, self.id_deltas[code_index]));
        }
        None
    }
}

} // verus!
