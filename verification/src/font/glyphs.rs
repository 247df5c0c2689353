use vstd::prelude::*;
use crate::errors::GridError;
use crate::font::reading::i16_at;
use crate::font::reading::read_i16;
use crate::font::reading::read_u16;
use crate::font::reading::read_u16s;
use crate::font::reading::read_u8;
use crate::font::reading::u16_at;
use crate::font::reading::u16s_at;
use crate::font::reading::u8_at;

verus! {

/// A point of the outline of a glyph: where it lies, and whether it lies
/// on the curve or steers it.
#[derive(Debug, Clone, Copy, PartialEq, Eq, Structural)]
pub struct ContourPoint {
    pub x: i16,
    pub y: i16,
    pub on_curve: bool,
}

/// Whether a flag has the bit of the given value set.
pub open spec fn flag_bit(flag: u8, value: int) -> bool {
    (flag as int / value) % 2 == 1
}

/// Whether a flag has the bit of the given value set.
pub fn has_bit(flag: u8, value: u8) -> (set: bool)
    requires
        value > 0,
    ensures
        set == flag_bit(flag, value as int),
{
    (flag / value) % 2 == 1
}

/// A flag, `count` times.
pub open spec fn repeated(flag: u8, count: int) -> Seq<u8> {
    Seq::new(count as nat, |i: int| flag)
}

/// The flags of the points of a glyph, read from the cursor on until there
/// are `need` of them, and where they end. A flag with the bit of value 8
/// set is followed by the number of times it is to be repeated.
pub open spec fn flags_from(data: Seq<u8>, cursor: int, have: Seq<u8>, need: int) -> Option<
    (Seq<u8>, int),
>
    decreases data.len() - cursor,
{
    if have.len() >= need {
        Some((have, cursor))
    } else if !(0 <= cursor < data.len()) {
        None
    } else if flag_bit(data[cursor], 8) {
        if cursor + 1 >= data.len() {
            None
        } else {
            flags_from(
                data,
                cursor + 2,
                have.push(data[cursor]) + repeated(data[cursor], data[cursor + 1] as int),
                need,
            )
        }
    } else {
        flags_from(data, cursor + 1, have.push(data[cursor]), need)
    }
}

/// Read the flags of the points of a glyph.
pub fn parse_flags(data: &[u8], start: usize, need: usize) -> (result: Option<(Vec<u8>, usize)>)
    ensures
        match result {
            Some((flags, cursor)) => flags_from(data@, start as int, Seq::empty(), need as int) == Some(
                (flags@, cursor as int),
            ),
            None => flags_from(data@, start as int, Seq::empty(), need as int) is None,
        },
{
    assert(data.len() == data@.len());
    let mut flags: Vec<u8> = Vec::new();
    let mut cursor: usize = start;
    while flags.len() < need
        invariant
            data@.len() <= usize::MAX,
            flags_from(data@, start as int, Seq::empty(), need as int) == flags_from(
                data@,
                cursor as int,
                flags@,
                need as int,
            ),
        decreases data@.len() - cursor,
    {
        let flag: u8 = match read_u8(data, cursor) {
            Some(flag) => flag,
            None => {
                return None;
            },
        };
        let ghost before = flags@;
        flags.push(flag);
        if has_bit(flag, 8) {
            if cursor + 1 >= data.len() {
                return None;
            }
            let repeat_count: u8 = data[cursor + 1];
            let mut repeats: u8 = 0;
            while repeats < repeat_count
                invariant
                    repeats <= repeat_count,
                    flags@ == before.push(flag) + repeated(flag, repeats as int),
                decreases repeat_count - repeats,
            {
                flags.push(flag);
                assert(flags@ =~= before.push(flag) + repeated(flag, repeats + 1));
                repeats += 1;
            }
            cursor += 2;
        } else {
            cursor += 1;
        }
    }
    Some((flags, cursor))
}

/// How far a coordinate lies from the one before it, and where the next
/// one is read: a flag with the bit `short` set is followed by one byte,
/// which counts forward with the bit `same` set and backward without; a
/// flag with only the bit `same` set leaves the coordinate as it was; any
/// other flag is followed by a signed number of two bytes.
pub open spec fn coordinate_step(data: Seq<u8>, cursor: int, flag: u8, short: int, same: int) -> Option<
    (int, int),
> {
    if flag_bit(flag, short) {
        match u8_at(data, cursor) {
            Some(byte) => Some(
                (
                    if flag_bit(flag, same) {
                        byte as int
                    } else {
                        -(byte as int)
                    },
                    cursor + 1,
                ),
            ),
            None => None,
        }
    } else if flag_bit(flag, same) {
        Some((0, cursor))
    } else {
        match i16_at(data, cursor) {
            Some(delta) => Some((delta as int, cursor + 2)),
            None => None,
        }
    }
}

/// The coordinates of the points from the `k`-th flag on, each the one
/// before it plus a step, and where they end. There are none where the
/// data ends too early or a coordinate leaves the range of 16 bits.
pub open spec fn coordinates_from(
    data: Seq<u8>,
    cursor: int,
    flags: Seq<u8>,
    k: int,
    current: int,
    short: int,
    same: int,
) -> Option<(Seq<i16>, int)>
    decreases flags.len() - k,
{
    if k < 0 || k >= flags.len() {
        Some((Seq::empty(), cursor))
    } else {
        match coordinate_step(data, cursor, flags[k], short, same) {
            None => None,
            Some((delta, next)) => {
                let value = current + delta;
                if value < i16::MIN || value > i16::MAX {
                    None
                } else {
                    match coordinates_from(data, next, flags, k + 1, value, short, same) {
                        None => None,
                        Some((rest, end)) => Some((seq![value as i16] + rest, end)),
                    }
                }
            },
        }
    }
}

/// What is known of all coordinates once some of them have been read.
pub open spec fn coordinates_with(done: Seq<i16>, rest: Option<(Seq<i16>, int)>) -> Option<
    (Seq<i16>, int),
> {
    match rest {
        Some((rest, end)) => Some((done + rest, end)),
        None => None,
    }
}

/// Read the coordinates of the points of a glyph along one axis.
pub fn parse_coordinates(data: &[u8], start: usize, flags: &Vec<u8>, short: u8, same: u8) -> (result:
    Option<(Vec<i16>, usize)>)
    requires
        short > 0,
        same > 0,
    ensures
        match result {
            Some((values, cursor)) => coordinates_from(
                data@,
                start as int,
                flags@,
                0,
                0,
                short as int,
                same as int,
            ) == Some((values@, cursor as int)),
            None => coordinates_from(data@, start as int, flags@, 0, 0, short as int, same as int) is None,
        },
{
    assert(data.len() == data@.len());
    let ghost all = coordinates_from(data@, start as int, flags@, 0, 0, short as int, same as int);
    let mut values: Vec<i16> = Vec::with_capacity(flags.len());
    let mut cursor: usize = start;
    let mut current: i16 = 0;
    let mut k: usize = 0;
    proof {
        let rest = coordinates_from(data@, start as int, flags@, 0, 0, short as int, same as int);
        if rest is Some {
            assert(Seq::<i16>::empty() + rest->Some_0.0 == rest->Some_0.0);
        }
    }
    while k < flags.len()
        invariant
            k <= flags@.len(),
            short > 0,
            same > 0,
            data@.len() <= usize::MAX,
            values@.len() == k,
            all == coordinates_from(data@, start as int, flags@, 0, 0, short as int, same as int),
            all == coordinates_with(
                values@,
                coordinates_from(
                    data@,
                    cursor as int,
                    flags@,
                    k as int,
                    current as int,
                    short as int,
                    same as int,
                ),
            ),
        decreases flags@.len() - k,
    {
        let flag: u8 = flags[k];
        let delta: i32;
        let next: usize;
        if has_bit(flag, short) {
            match read_u8(data, cursor) {
                Some(byte) => {
                    delta = if has_bit(flag, same) {
                        byte as i32
                    } else {
                        -(byte as i32)
                    };
                    next = cursor + 1;
                },
                None => {
                    return None;
                },
            }
        } else if has_bit(flag, same) {
            delta = 0;
            next = cursor;
        } else {
            match read_i16(data, cursor) {
                Some(value) => {
                    delta = value as i32;
                    next = cursor + 2;
                },
                None => {
                    return None;
                },
            }
        }
        let value: i32 = current as i32 + delta;
        if value < i16::MIN as i32 || value > i16::MAX as i32 {
            return None;
        }
        proof {
            let rest = coordinates_from(
                data@,
                next as int,
                flags@,
                k + 1,
                value as int,
                short as int,
                same as int,
            );
            if rest is Some {
                assert(values@ + (seq![value as i16] + rest->Some_0.0) == values@.push(value as i16)
                    + rest->Some_0.0);
            }
        }
        current = value as i16;
        values.push(current);
        cursor = next;
        k += 1;
    }
    proof {
        assert(values@ + Seq::<i16>::empty() == values@);
    }
    Some((values, cursor))
}

/// The first `count` points of a glyph, made of their coordinates and
/// their flags: a point lies on the curve when its flag has the bit of
/// value 1 set.
pub open spec fn points_of(xs: Seq<i16>, ys: Seq<i16>, flags: Seq<u8>, count: int) -> Seq<ContourPoint> {
    Seq::new(
        count as nat,
        |i: int| ContourPoint { x: xs[i], y: ys[i], on_curve: flag_bit(flags[i], 1) },
    )
}

/// The contours that the points of a glyph are cut into from the `k`-th
/// contour on: each reaches from behind the end of the one before it to
/// its own end. There are none where an end lies before the start or
/// behind the last point.
pub open spec fn contours_from(points: Seq<ContourPoint>, ends: Seq<u16>, k: int, start: int) -> Option<
    Seq<Seq<ContourPoint>>,
>
    decreases ends.len() - k,
{
    if k < 0 || k >= ends.len() {
        Some(Seq::empty())
    } else if start > ends[k] + 1 || ends[k] >= points.len() {
        None
    } else {
        match contours_from(points, ends, k + 1, ends[k] + 1) {
            Some(rest) => Some(seq![points.subrange(start, ends[k] + 1)] + rest),
            None => None,
        }
    }
}

/// The contours of a list of lists of points.
pub open spec fn outline_model(contours: Seq<Vec<ContourPoint>>) -> Seq<Seq<ContourPoint>> {
    Seq::new(contours.len(), |i: int| contours[i]@)
}

/// What is known of all contours once some of them have been cut off.
pub open spec fn contours_with(
    done: Seq<Seq<ContourPoint>>,
    rest: Option<Seq<Seq<ContourPoint>>>,
) -> Option<Seq<Seq<ContourPoint>>> {
    match rest {
        Some(rest) => Some(done + rest),
        None => None,
    }
}

/// Cut the points of a glyph into its contours.
pub fn split_contours(points: &Vec<ContourPoint>, ends: &Vec<u16>) -> (result: Option<
    Vec<Vec<ContourPoint>>,
>)
    ensures
        match result {
            Some(contours) => contours_from(points@, ends@, 0, 0) == Some(outline_model(contours@)),
            None => contours_from(points@, ends@, 0, 0) is None,
        },
{
    let ghost all = contours_from(points@, ends@, 0, 0);
    let mut contours: Vec<Vec<ContourPoint>> = Vec::with_capacity(ends.len());
    let mut start: usize = 0;
    let mut k: usize = 0;
    proof {
        if all is Some {
            assert(outline_model(contours@) + all->Some_0 == all->Some_0);
        }
    }
    while k < ends.len()
        invariant
            k <= ends@.len(),
            start <= u16::MAX + 1,
            all == contours_from(points@, ends@, 0, 0),
            all == contours_with(
                outline_model(contours@),
                contours_from(points@, ends@, k as int, start as int),
            ),
        decreases ends@.len() - k,
    {
        let end: usize = ends[k] as usize;
        if start > end + 1 || end >= points.len() {
            return None;
        }
        let mut contour: Vec<ContourPoint> = Vec::with_capacity(end + 1 - start);
        let mut index: usize = start;
        while index <= end
            invariant
                start <= index <= end + 1,
                end <= u16::MAX,
                end < points@.len(),
                contour@ == points@.subrange(start as int, index as int),
            decreases end + 1 - index,
        {
            contour.push(points[index]);
            assert(contour@ =~= points@.subrange(start as int, index + 1));
            index += 1;
        }
        proof {
            let done = outline_model(contours@);
            let rest = contours_from(points@, ends@, k + 1, end + 1);
            assert(outline_model(contours@.push(contour)) == done.push(contour@));
            if rest is Some {
                assert(done + (seq![contour@] + rest->Some_0) == done.push(contour@) + rest->Some_0);
            }
        }
        contours.push(contour);
        start = end + 1;
        k += 1;
    }
    proof {
        assert(outline_model(contours@) + Seq::<Seq<ContourPoint>>::empty() == outline_model(
            contours@,
        ));
    }
    Some(contours)
}

/// Where the flags of a glyph with `contour_quantity` contours start: behind
/// the header, the ends of the contours, and the instructions, whose
/// number of bytes stands before them; at the end of the data at most.
pub open spec fn flags_start(data: Seq<u8>, contour_quantity: int) -> int {
    let after = 12 + 2 * contour_quantity + u16_at(data, 10 + 2 * contour_quantity)->Some_0;
    if after <= data.len() {
        after
    } else {
        data.len() as int
    }
}

/// The outline of the glyph that starts at the front of the data: its
/// contours, or nothing for a glyph that states no contours or fewer. The
/// data holds no glyph at all where it ends too early or contradicts
/// itself.
pub open spec fn glyph_outline(data: Seq<u8>) -> Option<Option<Seq<Seq<ContourPoint>>>> {
    if data.len() < 10 {
        None
    } else if i16_at(data, 0)->Some_0 <= 0 {
        Some(None)
    } else {
        let contour_quantity = i16_at(data, 0)->Some_0 as int;
        match u16s_at(data, 10, contour_quantity) {
            None => None,
            Some(ends) => if u16_at(data, 10 + 2 * contour_quantity) is None || ends.last()
                == u16::MAX {
                None
            } else {
                let count = ends.last() + 1;
                match flags_from(data, flags_start(data, contour_quantity), Seq::empty(), count) {
                    None => None,
                    Some((flags, after_flags)) => match coordinates_from(
                        data,
                        after_flags,
                        flags,
                        0,
                        0,
                        2,
                        16,
                    ) {
                        None => None,
                        Some((xs, after_xs)) => match coordinates_from(
                            data,
                            after_xs,
                            flags,
                            0,
                            0,
                            4,
                            32,
                        ) {
                            None => None,
                            Some((ys, _)) => match contours_from(
                                points_of(xs, ys, flags, count),
                                ends,
                                0,
                                0,
                            ) {
                                None => None,
                                Some(contours) => Some(Some(contours)),
                            },
                        },
                    },
                }
            },
        }
    }
}

/// The coordinates of a glyph along one axis are as many as its flags.
pub proof fn lemma_coordinates_len(
    data: Seq<u8>,
    cursor: int,
    flags: Seq<u8>,
    k: int,
    current: int,
    short: int,
    same: int,
)
    requires
        0 <= k <= flags.len(),
        coordinates_from(data, cursor, flags, k, current, short, same) is Some,
    ensures
        coordinates_from(data, cursor, flags, k, current, short, same)->Some_0.0.len() == flags.len()
            - k,
    decreases flags.len() - k,
{
    if k < flags.len() {
        let step = coordinate_step(data, cursor, flags[k], short, same)->Some_0;
        lemma_coordinates_len(data, step.1, flags, k + 1, current + step.0, short, same);
    }
}

/// The flags of a glyph are at least as many as asked for.
pub proof fn lemma_flags_len(data: Seq<u8>, cursor: int, have: Seq<u8>, need: int)
    requires
        flags_from(data, cursor, have, need) is Some,
    ensures
        flags_from(data, cursor, have, need)->Some_0.0.len() >= need,
    decreases data.len() - cursor,
{
    if have.len() >= need {
    } else if flag_bit(data[cursor], 8) {
        lemma_flags_len(
            data,
            cursor + 2,
            have.push(data[cursor]) + repeated(data[cursor], data[cursor + 1] as int),
            need,
        );
    } else {
        lemma_flags_len(data, cursor + 1, have.push(data[cursor]), need);
    }
}

/// Read the outline of a glyph.
pub fn parse_glyph(data: &[u8]) -> (result: Result<Option<Vec<Vec<ContourPoint>>>, GridError>)
    ensures
        match result {
            Ok(Some(contours)) => glyph_outline(data@) == Some(Some(outline_model(contours@))),
            Ok(None) => glyph_outline(data@) == Some(None::<Seq<Seq<ContourPoint>>>),
            Err(error) => error == GridError::Format && glyph_outline(data@) is None,
        },
{
    assert(data.len() == data@.len());
    if data.len() < 10 {
        return Err(GridError::Format);
    }
    let contour_quantity: i16 = read_i16(data, 0).unwrap();
    if contour_quantity <= 0 {
        return Ok(None);
    }
    let quantity: usize = contour_quantity as usize;
    let ends: Vec<u16> = match read_u16s(data, 10, quantity) {
        Some(ends) => ends,
        None => {
            return Err(GridError::Format);
        },
    };
    let instruction_byte_count: usize = match read_u16(data, 10 + 2 * quantity) {
        Some(count) => count as usize,
        None => {
            return Err(GridError::Format);
        },
    };
    let after_instructions: usize = if instruction_byte_count <= data.len() - (12 + 2 * quantity) {
        12 + 2 * quantity + instruction_byte_count
    } else {
        data.len()
    };
    let last_end: u16 = ends[quantity - 1];
    if last_end == u16::MAX {
        return Err(GridError::Format);
    }
    let point_quantity: usize = last_end as usize + 1;
    let (flags, after_flags) = match parse_flags(data, after_instructions, point_quantity) {
        Some(found) => found,
        None => {
            return Err(GridError::Format);
        },
    };
    let (xs, after_xs) = match parse_coordinates(data, after_flags, &flags, 2, 16) {
        Some(found) => found,
        None => {
            return Err(GridError::Format);
        },
    };
    let (ys, _after_ys) = match parse_coordinates(data, after_xs, &flags, 4, 32) {
        Some(found) => found,
        None => {
            return Err(GridError::Format);
        },
    };
    proof {
        lemma_flags_len(data@, after_instructions as int, Seq::empty(), point_quantity as int);
        lemma_coordinates_len(data@, after_flags as int, flags@, 0, 0, 2, 16);
        lemma_coordinates_len(data@, after_xs as int, flags@, 0, 0, 4, 32);
    }
    let mut points: Vec<ContourPoint> = Vec::with_capacity(point_quantity);
    let mut index: usize = 0;
    while index < point_quantity
        invariant
            index <= point_quantity,
            point_quantity <= flags@.len(),
            xs@.len() == flags@.len(),
            ys@.len() == flags@.len(),
            points@.len() == index,
            forall|i: int|
                0 <= i < index ==> #[trigger] points@[i] == (ContourPoint {
                    x: xs@[i],
                    y: ys@[i],
                    on_curve: flag_bit(flags@[i], 1),
                }),
        decreases point_quantity - index,
    {
        points.push(ContourPoint { x: xs[index], y: ys[index], on_curve: has_bit(flags[index], 1) });
        index += 1;
    }
    assert(points@ =~= points_of(xs@, ys@, flags@, point_quantity as int));
    match split_contours(&points, &ends) {
        Some(contours) => Ok(Some(contours)),
        None => Err(GridError::Format),
    }
}

} // verus!
