use vstd::prelude::*;
use vstd::slice::slice_subrange;
use crate::errors::GridError;
use crate::font::glyphs::ContourPoint;
use crate::font::glyphs::glyph_outline;
use crate::font::glyphs::outline_model;
use crate::font::glyphs::parse_glyph;
use crate::font::reading::read_u16;
use crate::font::reading::read_u32;
use crate::font::reading::u16_at;
use crate::font::reading::u32_at;
use crate::font::tables::EncoderModel;
use crate::font::tables::TableRecord;
use crate::font::tables::directory_ok;
use crate::font::tables::encoder_model;
use crate::font::tables::format4_encoder;
use crate::font::tables::head_values;
use crate::font::tables::is_directory;
use crate::font::tables::loca_offsets;
use crate::font::tables::maxp_glyph_count;
use crate::font::tables::parse_directory;
use crate::font::tables::parse_format4;
use crate::font::tables::parse_head;
use crate::font::tables::parse_loca;
use crate::font::tables::parse_maxp;
use crate::font::tables::record_of;
use crate::font::tables::table_count;
use crate::font_encoders::FontEncoderFormat4;

verus! {

/// A font: the size of the square that its glyphs are drawn in, its
/// character maps, and the outlines of its glyphs, each with the number of
/// the glyph.
pub struct Font {
    pub units_per_em: u16,
    pub encoders: Vec<FontEncoderFormat4>,
    pub contours: Vec<(usize, Vec<Vec<ContourPoint>>)>,
}

/// What a list of encoders holds.
pub open spec fn encoders_model(encoders: Seq<FontEncoderFormat4>) -> Seq<EncoderModel> {
    Seq::new(encoders.len(), |i: int| encoder_model(&encoders[i]))
}

/// What a list of numbered outlines holds.
pub open spec fn glyphs_model(glyphs: Seq<(usize, Vec<Vec<ContourPoint>>)>) -> Seq<
    (usize, Seq<Seq<ContourPoint>>),
> {
    Seq::new(glyphs.len(), |i: int| (glyphs[i].0, outline_model(glyphs[i].1@)))
}

/// The encoders of the encoding records of a `cmap` table from the `k`-th
/// record on. A record gives an encoder when it is for platform 3 and
/// encoding 1 and its subtable, which starts in the file as far behind
/// the table as the record says, is of format 4. There are none at all
/// where a record or a subtable lies outside the file or a subtable of
/// format 4 is cut short.
pub open spec fn cmap_encoders_from(
    file: Seq<u8>,
    table_address: int,
    table: Seq<u8>,
    k: int,
    count: int,
) -> Option<Seq<EncoderModel>>
    decreases count - k,
{
    if k >= count {
        Some(Seq::empty())
    } else {
        let at = 4 + 8 * k;
        if k < 0 || at + 8 > table.len() {
            None
        } else {
            let start = table_address + u32_at(table, at + 4)->Some_0;
            if start > file.len() {
                None
            } else {
                let subtable = file.skip(start);
                match u16_at(subtable, 0) {
                    None => None,
                    Some(format) => {
                        let rest = cmap_encoders_from(file, table_address, table, k + 1, count);
                        if u16_at(table, at)->Some_0 == 3 && u16_at(table, at + 2)->Some_0 == 1
                            && format == 4 {
                            match format4_encoder(subtable) {
                                None => None,
                                Some(encoder) => match rest {
                                    Some(rest) => Some(seq![encoder] + rest),
                                    None => None,
                                },
                            }
                        } else {
                            rest
                        }
                    },
                }
            }
        }
    }
}

/// The encoders of a `cmap` table.
pub open spec fn cmap_encoders(file: Seq<u8>, table_address: int, table: Seq<u8>) -> Option<
    Seq<EncoderModel>,
> {
    match u16_at(table, 2) {
        Some(count) => cmap_encoders_from(file, table_address, table, 0, count as int),
        None => None,
    }
}

/// What is known of all items once some of them have been read.
pub open spec fn items_with<A>(done: Seq<A>, rest: Option<Seq<A>>) -> Option<Seq<A>> {
    match rest {
        Some(rest) => Some(done + rest),
        None => None,
    }
}

/// Read the encoders of a `cmap` table.
pub fn parse_cmap(file: &[u8], table_address: usize, table: &[u8]) -> (result: Option<
    Vec<FontEncoderFormat4>,
>)
    requires
        table_address <= file@.len(),
    ensures
        match result {
            Some(encoders) => cmap_encoders(file@, table_address as int, table@) == Some(
                encoders_model(encoders@),
            ),
            None => cmap_encoders(file@, table_address as int, table@) is None,
        },
{
    assert(file.len() == file@.len());
    assert(table.len() == table@.len());
    let count: usize = match read_u16(table, 2) {
        Some(count) => count as usize,
        None => {
            return None;
        },
    };
    let ghost all = cmap_encoders_from(file@, table_address as int, table@, 0, count as int);
    let mut encoders: Vec<FontEncoderFormat4> = Vec::new();
    let mut k: usize = 0;
    proof {
        if all is Some {
            assert(encoders_model(encoders@) + all->Some_0 == all->Some_0);
        }
    }
    while k < count
        invariant
            k <= count,
            count <= u16::MAX,
            u16_at(table@, 2) == Some(count as u16),
            table_address <= file@.len(),
            file@.len() <= usize::MAX,
            table@.len() <= usize::MAX,
            all == cmap_encoders_from(file@, table_address as int, table@, 0, count as int),
            all == items_with(
                encoders_model(encoders@),
                cmap_encoders_from(file@, table_address as int, table@, k as int, count as int),
            ),
        decreases count - k,
    {
        let at: usize = 4 + 8 * k;
        if table.len() < at + 8 {
            return None;
        }
        let platform_id: u16 = read_u16(table, at).unwrap();
        let encoding_id: u16 = read_u16(table, at + 2).unwrap();
        let offset: usize = read_u32(table, at + 4).unwrap() as usize;
        if offset > file.len() - table_address {
            return None;
        }
        let subtable: &[u8] = slice_subrange(file, table_address + offset, file.len());
        assert(subtable@ == file@.skip(table_address + offset));
        let format: u16 = match read_u16(subtable, 0) {
            Some(format) => format,
            None => {
                return None;
            },
        };
        if platform_id == 3 && encoding_id == 1 && format == 4 {
            match parse_format4(subtable) {
                Some(encoder) => {
                    proof {
                        let done = encoders_model(encoders@);
                        let model = encoder_model(&encoder);
                        let rest = cmap_encoders_from(
                            file@,
                            table_address as int,
                            table@,
                            k + 1,
                            count as int,
                        );
                        assert(encoders_model(encoders@.push(encoder)) == done.push(model));
                        if rest is Some {
                            assert(done + (seq![model] + rest->Some_0) == done.push(model)
                                + rest->Some_0);
                        }
                    }
                    encoders.push(encoder);
                },
                None => {
                    return None;
                },
            }
        }
        k += 1;
    }
    proof {
        assert(encoders_model(encoders@) + Seq::<EncoderModel>::empty() == encoders_model(
            encoders@,
        ));
    }
    Some(encoders)
}

/// The outlines of the glyphs of a `glyf` table from the `k`-th glyph on,
/// each with the number of its glyph. A glyph whose offset is that of the
/// next one is left out, and so is one that states no contours. The data
/// of a glyph starts in the file as far behind the table as its offset
/// says. There are none at all where the data of a glyph lies outside the
/// file or holds no glyph.
pub open spec fn glyf_outlines_from(file: Seq<u8>, table_address: int, offsets: Seq<usize>, k: int) -> Option<
    Seq<(usize, Seq<Seq<ContourPoint>>)>,
>
    decreases offsets.len() - k,
{
    if k < 0 || k >= offsets.len() {
        Some(Seq::empty())
    } else {
        let rest = glyf_outlines_from(file, table_address, offsets, k + 1);
        if k < offsets.len() - 1 && offsets[k] == offsets[k + 1] {
            rest
        } else if table_address + offsets[k] > file.len() {
            None
        } else {
            match glyph_outline(file.skip(table_address + offsets[k])) {
                None => None,
                Some(None) => rest,
                Some(Some(outline)) => match rest {
                    Some(rest) => Some(seq![(k as usize, outline)] + rest),
                    None => None,
                },
            }
        }
    }
}

/// Read the outlines of the glyphs of a `glyf` table.
pub fn parse_glyf(file: &[u8], table_address: usize, offsets: &Vec<usize>) -> (result: Option<
    Vec<(usize, Vec<Vec<ContourPoint>>)>,
>)
    requires
        table_address <= file@.len(),
    ensures
        match result {
            Some(glyphs) => glyf_outlines_from(file@, table_address as int, offsets@, 0) == Some(
                glyphs_model(glyphs@),
            ),
            None => glyf_outlines_from(file@, table_address as int, offsets@, 0) is None,
        },
{
    assert(file.len() == file@.len());
    let ghost all = glyf_outlines_from(file@, table_address as int, offsets@, 0);
    let mut glyphs: Vec<(usize, Vec<Vec<ContourPoint>>)> = Vec::new();
    let mut glyph_index: usize = 0;
    proof {
        if all is Some {
            assert(glyphs_model(glyphs@) + all->Some_0 == all->Some_0);
        }
    }
    while glyph_index < offsets.len()
        invariant
            glyph_index <= offsets@.len(),
            table_address <= file@.len(),
            file@.len() <= usize::MAX,
            all == glyf_outlines_from(file@, table_address as int, offsets@, 0),
            all == items_with(
                glyphs_model(glyphs@),
                glyf_outlines_from(file@, table_address as int, offsets@, glyph_index as int),
            ),
        decreases offsets@.len() - glyph_index,
    {
        if glyph_index < offsets.len() - 1 && offsets[glyph_index] == offsets[glyph_index + 1] {
            glyph_index += 1;
            continue ;
        }
        let glyph_offset: usize = offsets[glyph_index];
        if glyph_offset > file.len() - table_address {
            return None;
        }
        let data: &[u8] = slice_subrange(file, table_address + glyph_offset, file.len());
        assert(data@ == file@.skip(table_address + glyph_offset));
        match parse_glyph(data) {
            Ok(Some(outline)) => {
                proof {
                    let done = glyphs_model(glyphs@);
                    let model = (glyph_index, outline_model(outline@));
                    let rest = glyf_outlines_from(
                        file@,
                        table_address as int,
                        offsets@,
                        glyph_index + 1,
                    );
                    assert(glyphs_model(glyphs@.push((glyph_index, outline))) == done.push(model));
                    if rest is Some {
                        assert(done + (seq![model] + rest->Some_0) == done.push(model)
                            + rest->Some_0);
                    }
                }
                glyphs.push((glyph_index, outline));
            },
            Ok(None) => {},
            Err(_) => {
                return None;
            },
        }
        glyph_index += 1;
    }
    proof {
        assert(glyphs_model(glyphs@) + Seq::<(usize, Seq<Seq<ContourPoint>>)>::empty()
            == glyphs_model(glyphs@));
    }
    Some(glyphs)
}


/// What has been read of a font while its tables are gone through.
pub struct FontParts {
    pub loca_format: u16,
    pub glyph_count: u16,
    pub units_per_em: u16,
    pub offsets: Seq<usize>,
    pub encoders: Seq<EncoderModel>,
    pub glyphs: Seq<(usize, Seq<Seq<ContourPoint>>)>,
}

/// What is known of a font before any table is read.
pub open spec fn no_parts() -> FontParts {
    FontParts {
        loca_format: 0,
        glyph_count: 0,
        units_per_em: 0,
        offsets: Seq::empty(),
        encoders: Seq::empty(),
        glyphs: Seq::empty(),
    }
}

/// The four letters that name the tables that are read, in the order in
/// which they are read: `head`, `maxp`, `loca`, `cmap` and `glyf`.
pub open spec fn tag_letter(kind: int, place: int) -> u8 {
    if kind == 0 {
        if place == 0 {
            0x68
        } else if place == 1 {
            0x65
        } else if place == 2 {
            0x61
        } else {
            0x64
        }
    } else if kind == 1 {
        if place == 0 {
            0x6D
        } else if place == 1 {
            0x61
        } else if place == 2 {
            0x78
        } else {
            0x70
        }
    } else if kind == 2 {
        if place == 0 {
            0x6C
        } else if place == 1 {
            0x6F
        } else if place == 2 {
            0x63
        } else {
            0x61
        }
    } else if kind == 3 {
        if place == 0 {
            0x63
        } else if place == 1 {
            0x6D
        } else if place == 2 {
            0x61
        } else {
            0x70
        }
    } else {
        if place == 0 {
            0x67
        } else if place == 1 {
            0x6C
        } else if place == 2 {
            0x79
        } else {
            0x66
        }
    }
}

/// The record names a table of the given kind.
pub open spec fn has_tag(record: TableRecord, kind: int) -> bool {
    &&& record.tag[0] == tag_letter(kind, 0)
    &&& record.tag[1] == tag_letter(kind, 1)
    &&& record.tag[2] == tag_letter(kind, 2)
    &&& record.tag[3] == tag_letter(kind, 3)
}

/// Whether the record names a table of the given kind.
fn tag_is(record: &TableRecord, kind: u8) -> (named: bool)
    requires
        kind < 5,
    ensures
        named == has_tag(*record, kind as int),
{
    let letters: [u8; 4] = if kind == 0 {
        [0x68, 0x65, 0x61, 0x64]
    } else if kind == 1 {
        [0x6D, 0x61, 0x78, 0x70]
    } else if kind == 2 {
        [0x6C, 0x6F, 0x63, 0x61]
    } else if kind == 3 {
        [0x63, 0x6D, 0x61, 0x70]
    } else {
        [0x67, 0x6C, 0x79, 0x66]
    };
    record.tag[0] == letters[0] && record.tag[1] == letters[1] && record.tag[2] == letters[2]
        && record.tag[3] == letters[3]
}

/// What is known of a font once a table of the given kind has been read:
/// a `head` table gives the units per em and the format of the glyph
/// offsets, a `maxp` table the number of glyphs, a `loca` table the glyph
/// offsets, for the format and the number known by then; a `cmap` table
/// adds its encoders, a `glyf` table the outlines at the offsets known by
/// then. Nothing is known where the table cannot be read.
pub open spec fn with_table(file: Seq<u8>, record: TableRecord, kind: int, parts: FontParts) -> Option<
    FontParts,
> {
    let table = file.subrange(record.address as int, record.address + record.size);
    if kind == 0 {
        match head_values(table) {
            Some((units_per_em, loca_format)) => Some(
                FontParts { units_per_em, loca_format, ..parts },
            ),
            None => None,
        }
    } else if kind == 1 {
        match maxp_glyph_count(table) {
            Some(glyph_count) => Some(FontParts { glyph_count, ..parts }),
            None => None,
        }
    } else if kind == 2 {
        match loca_offsets(table, parts.loca_format, parts.glyph_count) {
            Some(offsets) => Some(FontParts { offsets, ..parts }),
            None => None,
        }
    } else if kind == 3 {
        match cmap_encoders(file, record.address as int, table) {
            Some(encoders) => Some(FontParts { encoders: parts.encoders + encoders, ..parts }),
            None => None,
        }
    } else {
        match glyf_outlines_from(file, record.address as int, parts.offsets, 0) {
            Some(glyphs) => Some(FontParts { glyphs: parts.glyphs + glyphs, ..parts }),
            None => None,
        }
    }
}

/// What is known of a font once the tables of the given kind from the
/// record `from` on have been read.
pub open spec fn with_records(
    file: Seq<u8>,
    records: Seq<TableRecord>,
    kind: int,
    from: int,
    parts: FontParts,
) -> Option<FontParts>
    decreases records.len() - from,
{
    if from < 0 || from >= records.len() {
        Some(parts)
    } else if has_tag(records[from], kind) {
        match with_table(file, records[from], kind, parts) {
            Some(next) => with_records(file, records, kind, from + 1, next),
            None => None,
        }
    } else {
        with_records(file, records, kind, from + 1, parts)
    }
}

/// What is known of a font once the tables of the kinds from the given one
/// on have been read, kind after kind.
pub open spec fn with_kinds(file: Seq<u8>, records: Seq<TableRecord>, kind: int, parts: FontParts) -> Option<
    FontParts,
>
    decreases 5 - kind,
{
    if kind < 0 || kind >= 5 {
        Some(parts)
    } else {
        match with_records(file, records, kind, 0, parts) {
            Some(next) => with_kinds(file, records, kind + 1, next),
            None => None,
        }
    }
}

/// The table directory of a font file.
pub open spec fn directory_of(file: Seq<u8>) -> Seq<TableRecord> {
    Seq::new(table_count(file) as nat, |k: int| record_of(file, k))
}

/// What a font file holds: what is known once its `head`, `maxp`, `loca`,
/// `cmap` and `glyf` tables have been read in this order. A file that is
/// no TrueType font, or one with a table that cannot be read, holds
/// nothing.
pub open spec fn font_parts(file: Seq<u8>) -> Option<FontParts> {
    if directory_ok(file) {
        with_kinds(file, directory_of(file), 0, no_parts())
    } else {
        None
    }
}

/// What has been read of a font while its tables are gone through, as the
/// values that hold it.
pub struct FontBuilder {
    pub loca_format: u16,
    pub glyph_count: u16,
    pub units_per_em: u16,
    pub offsets: Vec<usize>,
    pub encoders: Vec<FontEncoderFormat4>,
    pub glyphs: Vec<(usize, Vec<Vec<ContourPoint>>)>,
}

impl FontBuilder {
    /// What the builder holds.
    pub open spec fn parts(&self) -> FontParts {
        FontParts {
            loca_format: self.loca_format,
            glyph_count: self.glyph_count,
            units_per_em: self.units_per_em,
            offsets: self.offsets@,
            encoders: encoders_model(self.encoders@),
            glyphs: glyphs_model(self.glyphs@),
        }
    }

    /// Read a table of the given kind.
    fn read_table(&mut self, file: &[u8], record: &TableRecord, kind: u8) -> (read: bool)
        requires
            kind < 5,
            record.address + record.size <= file@.len(),
        ensures
            match with_table(file@, *record, kind as int, old(self).parts()) {
                Some(parts) => read && final(self).parts() == parts,
                None => !read,
            },
    {
        assert(file.len() == file@.len());
        let table: &[u8] = slice_subrange(file, record.address, record.address + record.size);
        if kind == 0 {
            match parse_head(table) {
                Some((units_per_em, loca_format)) => {
                    self.units_per_em = units_per_em;
                    self.loca_format = loca_format;
                    true
                },
                None => false,
            }
        } else if kind == 1 {
            match parse_maxp(table) {
                Some(glyph_count) => {
                    self.glyph_count = glyph_count;
                    true
                },
                None => false,
            }
        } else if kind == 2 {
            match parse_loca(table, self.loca_format, self.glyph_count) {
                Some(offsets) => {
                    self.offsets = offsets;
                    true
                },
                None => false,
            }
        } else if kind == 3 {
            match parse_cmap(file, record.address, table) {
                Some(encoders) => {
                    let mut encoders = encoders;
                    let ghost before = self.encoders@;
                    let ghost added = encoders@;
                    self.encoders.append(&mut encoders);
                    assert(encoders_model(before + added) =~= encoders_model(before) + encoders_model(
                        added,
                    ));
                    true
                },
                None => false,
            }
        } else {
            match parse_glyf(file, record.address, &self.offsets) {
                Some(glyphs) => {
                    let mut glyphs = glyphs;
                    let ghost before = self.glyphs@;
                    let ghost added = glyphs@;
                    self.glyphs.append(&mut glyphs);
                    assert(glyphs_model(before + added) =~= glyphs_model(before) + glyphs_model(added));
                    true
                },
                None => false,
            }
        }
    }
}

impl Font {
    /// What the font holds.
    pub open spec fn holds(&self, parts: FontParts) -> bool {
        &&& self.units_per_em == parts.units_per_em
        &&& encoders_model(self.encoders@) == parts.encoders
        &&& glyphs_model(self.contours@) == parts.glyphs
    }

    /// Read a font from the bytes of a font file.
    pub fn new(file: &[u8]) -> (result: Result<Font, GridError>)
        ensures
            match result {
                Ok(font) => font_parts(file@) matches Some(parts) && font.holds(parts),
                Err(error) => error == GridError::Format && font_parts(file@) is None,
            },
    {
        let records: Vec<TableRecord> = parse_directory(file)?;
        assert(records@ =~= directory_of(file@));
        let mut builder: FontBuilder = FontBuilder {
            loca_format: 0,
            glyph_count: 0,
            units_per_em: 0,
            offsets: Vec::new(),
            encoders: Vec::new(),
            glyphs: Vec::new(),
        };
        assert(builder.parts().encoders =~= Seq::<EncoderModel>::empty());
        assert(builder.parts().glyphs =~= Seq::<(usize, Seq<Seq<ContourPoint>>)>::empty());
        assert(builder.parts().offsets =~= Seq::<usize>::empty());
        assert(builder.parts() == no_parts());
        let ghost all = with_kinds(file@, records@, 0, no_parts());
        let mut kind: u8 = 0;
        while kind < 5
            invariant
                kind <= 5,
                directory_ok(file@),
                is_directory(file@, records@),
                records@ == directory_of(file@),
                all == with_kinds(file@, records@, 0, no_parts()),
                all == with_kinds(file@, records@, kind as int, builder.parts()),
            decreases 5 - kind,
        {
            let mut index: usize = 0;
            while index < records.len()
                invariant
                    kind < 5,
                    index <= records@.len(),
                    directory_ok(file@),
                    is_directory(file@, records@),
                    records@ == directory_of(file@),
                    all == with_kinds(file@, records@, 0, no_parts()),
                    all == match with_records(
                        file@,
                        records@,
                        kind as int,
                        index as int,
                        builder.parts(),
                    ) {
                        Some(next) => with_kinds(file@, records@, kind + 1, next),
                        None => None,
                    },
                decreases records@.len() - index,
            {
                if tag_is(&records[index], kind) {
                    if !builder.read_table(file, &records[index], kind) {
                        return Err(GridError::Format);
                    }
                }
                index += 1;
            }
            kind += 1;
        }
        Ok(Font { units_per_em: builder.units_per_em, encoders: builder.encoders, contours: builder.glyphs })
    }
}

} // verus!
