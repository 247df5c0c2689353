use vstd::prelude::*;
use crate::errors::GridError;
use crate::font::reading::i16s_at;
use crate::font::reading::read_i16s;
use crate::font::reading::read_u16;
use crate::font::reading::read_u16s;
use crate::font::reading::read_u32;
use crate::font::reading::u16_at;
use crate::font::reading::u16s_at;
use crate::font::reading::u32_at;
use crate::font_encoders::FontEncoderFormat4;

verus! {

/// The version that a font file with TrueType outlines starts with.
pub const SFNT_VERSION_TT: u32 = 0x00010000;

/// One entry of the table directory of a font file: the four letters that
/// name a table, and where in the file the table starts and how long it is.
#[derive(Debug, Clone, Copy)]
pub struct TableRecord {
    pub tag: [u8; 4],
    pub address: usize,
    pub size: usize,
}

/// How many tables the directory of a font file lists.
pub open spec fn table_count(file: Seq<u8>) -> int {
    u16_at(file, 4)->Some_0 as int
}

/// The `k`-th entry of the table directory of a font file.
pub open spec fn record_of(file: Seq<u8>, k: int) -> TableRecord {
    let at = 12 + 16 * k;
    TableRecord {
        tag: [file[at], file[at + 1], file[at + 2], file[at + 3]],
        address: u32_at(file, at + 8)->Some_0 as usize,
        size: u32_at(file, at + 12)->Some_0 as usize,
    }
}

/// The `k`-th entry of the table directory lies in the file, and so does
/// the table that it names.
pub open spec fn record_fits(file: Seq<u8>, k: int) -> bool {
    &&& 12 + 16 * k + 16 <= file.len()
    &&& record_of(file, k).address + record_of(file, k).size <= file.len()
}

/// The file starts with the header of a TrueType font and a table
/// directory whose tables all lie in the file.
pub open spec fn directory_ok(file: Seq<u8>) -> bool {
    &&& file.len() >= 12
    &&& u32_at(file, 0) == Some(SFNT_VERSION_TT)
    &&& forall|k: int| 0 <= k < table_count(file) ==> #[trigger] record_fits(file, k)
}

/// The records are the entries of the table directory of the file.
pub open spec fn is_directory(file: Seq<u8>, records: Seq<TableRecord>) -> bool {
    &&& records.len() == table_count(file)
    &&& forall|k: int| 0 <= k < records.len() ==> #[trigger] records[k] == record_of(file, k)
    &&& forall|k: int|
        0 <= k < records.len() ==> (#[trigger] records[k]).address + records[k].size <= file.len()
}

/// Read the header and the table directory of a font file.
pub fn parse_directory(file: &[u8]) -> (result: Result<Vec<TableRecord>, GridError>)
    ensures
        match result {
            Ok(records) => directory_ok(file@) && is_directory(file@, records@),
            Err(error) => error == GridError::Format && !directory_ok(file@),
        },
{
    assert(file.len() == file@.len());
    if file.len() < 12 {
        return Err(GridError::Format);
    }
    let sfnt_version: u32 = read_u32(file, 0).unwrap();
    if sfnt_version != SFNT_VERSION_TT {
        return Err(GridError::Format);
    }
    let table_quantity: usize = read_u16(file, 4).unwrap() as usize;
    let mut records: Vec<TableRecord> = Vec::with_capacity(table_quantity);
    let mut k: usize = 0;
    while k < table_quantity
        invariant
            k <= table_quantity,
            table_quantity == table_count(file@),
            table_quantity <= u16::MAX,
            file@.len() >= 12,
            file@.len() <= usize::MAX,
            u32_at(file@, 0) == Some(SFNT_VERSION_TT),
            records@.len() == k,
            forall|j: int| 0 <= j < k ==> #[trigger] record_fits(file@, j),
            forall|j: int| 0 <= j < k ==> #[trigger] records@[j] == record_of(file@, j),
        decreases table_quantity - k,
    {
        let at: usize = 12 + 16 * k;
        if file.len() - 12 < 16 * k + 16 {
            assert(!record_fits(file@, k as int));
            return Err(GridError::Format);
        }
        let tag: [u8; 4] = [file[at], file[at + 1], file[at + 2], file[at + 3]];
        let address: usize = read_u32(file, at + 8).unwrap() as usize;
        let size: usize = read_u32(file, at + 12).unwrap() as usize;
        if address > file.len() || size > file.len() - address {
            assert(!record_fits(file@, k as int));
            return Err(GridError::Format);
        }
        let record: TableRecord = TableRecord { tag, address, size };
        assert(record.tag@ =~= record_of(file@, k as int).tag@);
        assert(record == record_of(file@, k as int));
        records.push(record);
        k += 1;
    }
    proof {
        assert forall|j: int| 0 <= j < records@.len() implies (#[trigger] records@[j]).address
            + records@[j].size <= file@.len() by {
            assert(record_fits(file@, j));
        }
    }
    Ok(records)
}

/// The units per em and the format of the glyph offsets that a `head`
/// table states.
pub open spec fn head_values(table: Seq<u8>) -> Option<(u16, u16)> {
    if table.len() >= 38 {
        Some((u16_at(table, 18)->Some_0, u16_at(table, 36)->Some_0))
    } else {
        None
    }
}

/// Read a `head` table.
pub fn parse_head(table: &[u8]) -> (values: Option<(u16, u16)>)
    ensures
        values == head_values(table@),
{
    if table.len() < 38 {
        return None;
    }
    let units_per_em: u16 = read_u16(table, 18).unwrap();
    let loca_format: u16 = read_u16(table, 36).unwrap();
    Some((units_per_em, loca_format))
}

/// The number of glyphs that a `maxp` table states.
pub open spec fn maxp_glyph_count(table: Seq<u8>) -> Option<u16> {
    u16_at(table, 4)
}

/// Read a `maxp` table.
pub fn parse_maxp(table: &[u8]) -> (glyph_count: Option<u16>)
    ensures
        glyph_count == maxp_glyph_count(table@),
{
    read_u16(table, 4)
}

/// The size in bytes of one glyph offset of a `loca` table of a format.
pub open spec fn loca_offset_size(loca_format: u16) -> int {
    if loca_format == 0 {
        2
    } else {
        4
    }
}

/// The `k`-th glyph offset of a `loca` table: twice a number of two bytes
/// in format 0, a number of four bytes otherwise.
pub open spec fn loca_offset(table: Seq<u8>, loca_format: u16, k: int) -> usize {
    if loca_format == 0 {
        (u16_at(table, 2 * k)->Some_0 * 2) as usize
    } else {
        u32_at(table, 4 * k)->Some_0 as usize
    }
}

/// The glyph offsets that a `loca` table holds for a number of glyphs: one
/// more than there are glyphs. A table that is too short holds none, and
/// neither does one for 65535 glyphs.
pub open spec fn loca_offsets(table: Seq<u8>, loca_format: u16, glyph_count: u16) -> Option<Seq<usize>> {
    if glyph_count < u16::MAX && (glyph_count + 1) * loca_offset_size(loca_format) <= table.len() {
        Some(Seq::new((glyph_count + 1) as nat, |k: int| loca_offset(table, loca_format, k)))
    } else {
        None
    }
}

/// Read a `loca` table.
pub fn parse_loca(table: &[u8], loca_format: u16, glyph_count: u16) -> (offsets: Option<Vec<usize>>)
    ensures
        match offsets {
            Some(offsets) => loca_offsets(table@, loca_format, glyph_count) == Some(offsets@),
            None => loca_offsets(table@, loca_format, glyph_count) is None,
        },
{
    assert(table.len() == table@.len());
    if glyph_count == u16::MAX {
        return None;
    }
    let length: usize = glyph_count as usize + 1;
    let offset_size: usize = if loca_format == 0 {
        2
    } else {
        4
    };
    if table.len() / offset_size < length {
        return None;
    }
    let ghost all = loca_offsets(table@, loca_format, glyph_count)->Some_0;
    let mut offsets: Vec<usize> = Vec::with_capacity(length);
    let mut k: usize = 0;
    while k < length
        invariant
            k <= length,
            length == glyph_count + 1,
            offset_size == loca_offset_size(loca_format),
            length * offset_size <= table@.len(),
            offsets@.len() == k,
            forall|j: int| 0 <= j < k ==> offsets@[j] == loca_offset(table@, loca_format, j),
        decreases length - k,
    {
        let offset: usize = if loca_format == 0 {
            read_u16(table, 2 * k).unwrap() as usize * 2
        } else {
            read_u32(table, 4 * k).unwrap() as usize
        };
        offsets.push(offset);
        k += 1;
    }
    assert(offsets@ =~= all);
    Some(offsets)
}

/// What a character map of format 4 holds: for each segment its end code,
/// start code, delta and range offset, and the table of glyph IDs.
pub struct EncoderModel {
    pub start_codes: Seq<u16>,
    pub end_codes: Seq<u16>,
    pub id_deltas: Seq<i16>,
    pub id_range_offsets: Seq<u16>,
    pub glyph_id_array: Seq<u16>,
}

/// What an encoder holds.
pub open spec fn encoder_model(encoder: &FontEncoderFormat4) -> EncoderModel {
    EncoderModel {
        start_codes: encoder.start_codes@,
        end_codes: encoder.end_codes@,
        id_deltas: encoder.id_deltas@,
        id_range_offsets: encoder.id_range_offsets@,
        glyph_id_array: encoder.glyph_id_array@,
    }
}

/// The number of segments of a character map of format 4.
pub open spec fn segment_count(subtable: Seq<u8>) -> int {
    u16_at(subtable, 6)->Some_0 as int / 2
}

/// The character map of format 4 that a subtable of a `cmap` table holds:
/// after the lengths come the end codes, two bytes that are left out, the
/// start codes, the deltas, the range offsets, and the glyph IDs up to the
/// length that the subtable states. A subtable that is shorter than it
/// states holds none.
pub open spec fn format4_encoder(subtable: Seq<u8>) -> Option<EncoderModel> {
    if subtable.len() < 14 {
        None
    } else {
        let length = u16_at(subtable, 2)->Some_0 as int;
        let segments = segment_count(subtable);
        let fixed = 16 + 8 * segments;
        if subtable.len() < fixed || length < fixed {
            None
        } else {
            let glyphs = (length - fixed) / 2;
            match u16s_at(subtable, fixed, glyphs) {
                None => None,
                Some(glyph_id_array) => Some(
                    EncoderModel {
                        start_codes: u16s_at(subtable, 16 + 2 * segments, segments)->Some_0,
                        end_codes: u16s_at(subtable, 14, segments)->Some_0,
                        id_deltas: i16s_at(subtable, 16 + 4 * segments, segments)->Some_0,
                        id_range_offsets: u16s_at(subtable, 16 + 6 * segments, segments)->Some_0,
                        glyph_id_array,
                    },
                ),
            }
        }
    }
}

/// Read a character map of format 4.
pub fn parse_format4(subtable: &[u8]) -> (encoder: Option<FontEncoderFormat4>)
    ensures
        match encoder {
            Some(encoder) => format4_encoder(subtable@) == Some(encoder_model(&encoder)),
            None => format4_encoder(subtable@) is None,
        },
{
    assert(subtable.len() == subtable@.len());
    if subtable.len() < 14 {
        return None;
    }
    let length: usize = read_u16(subtable, 2).unwrap() as usize;
    let segment_quantity: usize = read_u16(subtable, 6).unwrap() as usize / 2;
    let fixed: usize = 16 + 8 * segment_quantity;
    if subtable.len() < fixed || length < fixed {
        return None;
    }
    let end_codes: Vec<u16> = read_u16s(subtable, 14, segment_quantity).unwrap();
    let start_codes: Vec<u16> = read_u16s(subtable, 16 + 2 * segment_quantity, segment_quantity).unwrap();
    let id_deltas: Vec<i16> = read_i16s(subtable, 16 + 4 * segment_quantity, segment_quantity).unwrap();
    let id_range_offsets: Vec<u16> = read_u16s(
        subtable,
        16 + 6 * segment_quantity,
        segment_quantity,
    ).unwrap();
    match read_u16s(subtable, fixed, (length - fixed) / 2) {
        Some(glyph_id_array) => Some(
            FontEncoderFormat4::new(start_codes, end_codes, id_deltas, id_range_offsets, glyph_id_array),
        ),
        None => None,
    }
}

} // verus!
