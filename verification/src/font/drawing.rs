use vstd::prelude::*;
use crate::font::glyphs::ContourPoint;
use crate::font::parsing::Font;
use crate::font_encoders::FontEncoder;
use crate::font_encoders::FontEncoderFormat4;
use crate::grid::Grid;
use crate::indexer::coordinate_of;
use crate::indexer::lemma_coordinate_round_trip;
use crate::indexer::lemma_index_round_trip;
use crate::indexer::linear_index;

verus! {

/// The glyph that the first of the encoders from the `from`-th on that
/// knows the character gives for it; glyph 0 where none knows it.
pub open spec fn glyph_from(encoders: Seq<FontEncoderFormat4>, character: char, from: int) -> usize
    decreases encoders.len() - from,
{
    if from < 0 || from >= encoders.len() {
        0
    } else {
        match encoders[from].glyph_of(character) {
            Some(glyph) => glyph as usize,
            None => glyph_from(encoders, character, from + 1),
        }
    }
}

/// The lines of a text: what stands between its line feeds.
pub open spec fn lines_of(text: Seq<char>) -> Seq<Seq<char>>
    decreases text.len(),
{
    if text.len() == 0 {
        seq![Seq::<char>::empty()]
    } else {
        let before = lines_of(text.drop_last());
        if text.last() == '\n' {
            before.push(Seq::<char>::empty())
        } else {
            before.update(before.len() - 1, before.last().push(text.last()))
        }
    }
}

/// The characters of each line of a list of lines.
pub open spec fn lines_model(lines: Seq<Vec<char>>) -> Seq<Seq<char>> {
    Seq::new(lines.len(), |i: int| lines[i]@)
}

/// The length of the longest of the first `count` lines.
pub open spec fn longest_upto(lines: Seq<Seq<char>>, count: int) -> nat
    decreases count,
{
    if count <= 0 {
        0
    } else {
        let before = longest_upto(lines, count - 1);
        if lines[count - 1].len() > before {
            lines[count - 1].len()
        } else {
            before
        }
    }
}

/// Cut a text into its lines.
pub fn text_lines(text: &str) -> (lines: Vec<Vec<char>>)
    ensures
        lines_model(lines@) == lines_of(text@),
{
    let mut lines: Vec<Vec<char>> = Vec::new();
    let mut line: Vec<char> = Vec::new();
    proof {
        assert(text@.take(0) == Seq::<char>::empty());
        assert(lines_model(lines@).push(line@) == lines_of(text@.take(0)));
    }
    for character in iterator: text.chars()
        invariant
            iterator.seq() == text@,
            lines_model(lines@).push(line@) == lines_of(text@.take(iterator.index() as int)),
    {
        let ghost done = iterator.index() as int;
        let ghost before = lines_of(text@.take(done));
        proof {
            assert(text@.take(done + 1).drop_last() == text@.take(done));
            assert(text@.take(done + 1).last() == character);
        }
        if character == '\n' {
            proof {
                assert(lines_model(lines@.push(line)) == lines_model(lines@).push(line@));
            }
            lines.push(line);
            line = Vec::new();
        } else {
            proof {
                assert(before.update(before.len() - 1, before.last().push(character))
                    == lines_model(lines@).push(line@.push(character)));
            }
            line.push(character);
        }
    }
    proof {
        assert(text@.take(text@.len() as int) == text@);
        assert(lines_model(lines@.push(line)) == lines_model(lines@).push(line@));
    }
    lines.push(line);
    lines
}

/// The grid holds one cell for each place of a text of the given lines,
/// as many in a row as the longest line has characters: for each character
/// what the drawing function gave for it, and an empty grid behind the
/// end of a line.
pub open spec fn is_layout<F: Fn(char) -> Grid<bool>>(
    lines: Seq<Seq<char>>,
    draw: F,
    layout: &Grid<Grid<bool>>,
) -> bool {
    &&& layout.wf()
    &&& layout.width == longest_upto(lines, lines.len() as int)
    &&& layout.height == lines.len()
    &&& forall|x: int, y: int|
        0 <= x < layout.width && 0 <= y < layout.height ==> if x < lines[y].len() {
            call_ensures(draw, (lines[y][x],), #[trigger] layout@[linear_index(layout.width as int, x, y)])
        } else {
            layout@[linear_index(layout.width as int, x, y)]@.len() == 0 && layout@[linear_index(
                layout.width as int,
                x,
                y,
            )].width == 0 && layout@[linear_index(layout.width as int, x, y)].height == 0
        }
}

/// Lay out a text: one grid for each character, row by row, each line
/// filled up with empty grids to the length of the longest line.
pub fn layout_text<F: Fn(char) -> Grid<bool>>(lines: &Vec<Vec<char>>, draw: F) -> (layout: Grid<
    Grid<bool>,
>)
    requires
        forall|character: char| call_requires(draw, (character,)),
        longest_upto(lines_model(lines@), lines@.len() as int) * lines@.len() <= usize::MAX,
    ensures
        is_layout(lines_model(lines@), draw, &layout),
{
    let ghost model = lines_model(lines@);
    let line_count: usize = lines.len();
    let mut max_line_size: usize = 0;
    let mut index: usize = 0;
    while index < line_count
        invariant
            index <= line_count,
            line_count == lines@.len(),
            model == lines_model(lines@),
            max_line_size == longest_upto(model, index as int),
        decreases line_count - index,
    {
        if lines[index].len() > max_line_size {
            max_line_size = lines[index].len();
        }
        index += 1;
    }
    let mut cells: Vec<Grid<bool>> = Vec::new();
    let mut y: usize = 0;
    proof {
        assert(0 * max_line_size == 0) by (nonlinear_arith);
    }
    while y < line_count
        invariant
            y <= line_count,
            line_count == lines@.len(),
            model == lines_model(lines@),
            max_line_size == longest_upto(model, line_count as int),
            max_line_size * line_count <= usize::MAX,
            forall|character: char| call_requires(draw, (character,)),
            cells@.len() == y * max_line_size,
            forall|cx: int, cy: int|
                0 <= cx < max_line_size && 0 <= cy < y ==> if cx < model[cy].len() {
                    call_ensures(
                        draw,
                        (model[cy][cx],),
                        #[trigger] cells@[linear_index(max_line_size as int, cx, cy)],
                    )
                } else {
                    cells@[linear_index(max_line_size as int, cx, cy)]@.len() == 0 && cells@[linear_index(
                        max_line_size as int,
                        cx,
                        cy,
                    )].width == 0 && cells@[linear_index(max_line_size as int, cx, cy)].height == 0
                },
        decreases line_count - y,
    {
        let ghost before = cells@;
        let mut x: usize = 0;
        while x < max_line_size
            invariant
                y < line_count,
                x <= max_line_size,
                line_count == lines@.len(),
                model == lines_model(lines@),
                forall|character: char| call_requires(draw, (character,)),
                before.len() == y * max_line_size,
                cells@.len() == before.len() + x,
                cells@.take(before.len() as int) == before,
                forall|cx: int|
                    0 <= cx < x ==> if cx < model[y as int].len() {
                        call_ensures(draw, (model[y as int][cx],), #[trigger] cells@[before.len() + cx])
                    } else {
                        cells@[before.len() + cx]@.len() == 0 && cells@[before.len() + cx].width == 0
                            && cells@[before.len() + cx].height == 0
                    },
            decreases max_line_size - x,
        {
            let cell: Grid<bool> = if x < lines[y].len() {
                draw(lines[y][x])
            } else {
                Grid::new(Vec::new(), 0, 0)
            };
            cells.push(cell);
            x += 1;
        }
        proof {
            assert((y + 1) * max_line_size == y * max_line_size + max_line_size) by (nonlinear_arith);
            assert forall|cx: int, cy: int| 0 <= cx < max_line_size && 0 <= cy < y + 1 implies if cx
                < model[cy].len() {
                call_ensures(
                    draw,
                    (model[cy][cx],),
                    #[trigger] cells@[linear_index(max_line_size as int, cx, cy)],
                )
            } else {
                cells@[linear_index(max_line_size as int, cx, cy)]@.len() == 0 && cells@[linear_index(
                    max_line_size as int,
                    cx,
                    cy,
                )].width == 0 && cells@[linear_index(max_line_size as int, cx, cy)].height == 0
            } by {
                if cy < y {
                    lemma_index_round_trip(max_line_size as int, y as int, cx, cy);
                    assert(max_line_size * y == y * max_line_size) by (nonlinear_arith);
                    assert(cells@[linear_index(max_line_size as int, cx, cy)] == cells@.take(
                        before.len() as int,
                    )[linear_index(max_line_size as int, cx, cy)]);
                } else {
                    assert(linear_index(max_line_size as int, cx, cy) == before.len() + cx);
                }
            }
        }
        y += 1;
    }
    proof {
        assert(cells@.len() == max_line_size * line_count) by (nonlinear_arith)
            requires
                cells@.len() == y * max_line_size,
                y == line_count,
        ;
    }
    Grid::new(cells, max_line_size, line_count)
}

impl Font {
    /// Every encoder of the font can be asked for a glyph.
    pub open spec fn wf(&self) -> bool {
        forall|i: int| 0 <= i < self.encoders@.len() ==> (#[trigger] self.encoders@[i]).wf()
    }

    /// The number of the glyph that stands for a character: what the first
    /// encoder that knows the character gives, and 0 where none knows it.
    pub fn glyph_id(&self, character: char) -> (glyph: usize)
        requires
            self.wf(),
        ensures
            glyph == glyph_from(self.encoders@, character, 0),
    {
        let mut index: usize = 0;
        while index < self.encoders.len()
            invariant
                self.wf(),
                index <= self.encoders@.len(),
                glyph_from(self.encoders@, character, 0) == glyph_from(
                    self.encoders@,
                    character,
                    index as int,
                ),
            decreases self.encoders@.len() - index,
        {
            match self.encoders[index].glyph_id_for_char(character) {
                Some(glyph) => {
                    return glyph as usize;
                },
                None => {},
            }
            index += 1;
        }
        0
    }

    /// The outline of the glyph with the given number: that of the first
    /// entry with the number, if there is one.
    pub fn glyph_contours(&self, glyph_id: usize) -> (contours: Option<&Vec<Vec<ContourPoint>>>)
        ensures
            match contours {
                Some(outline) => exists|k: int|
                    {
                        &&& 0 <= k < self.contours@.len()
                        &&& (#[trigger] self.contours@[k]).0 == glyph_id
                        &&& self.contours@[k].1 == *outline
                        &&& forall|j: int| 0 <= j < k ==> (#[trigger] self.contours@[j]).0 != glyph_id
                    },
                None => forall|j: int|
                    0 <= j < self.contours@.len() ==> (#[trigger] self.contours@[j]).0 != glyph_id,
            },
    {
        let mut index: usize = 0;
        while index < self.contours.len()
            invariant
                index <= self.contours@.len(),
                forall|j: int| 0 <= j < index ==> (#[trigger] self.contours@[j]).0 != glyph_id,
            decreases self.contours@.len() - index,
        {
            if self.contours[index].0 == glyph_id {
                return Some(&self.contours[index].1);
            }
            index += 1;
        }
        None
    }
}

impl Grid<bool> {
    /// Set the cells of a row from a column up to another one. The part of
    /// the span that lies left or right of the grid is left away.
    pub fn fill_span(&mut self, row: usize, start: isize, end: isize)
        requires
            old(self).wf(),
            row < old(self).height,
        ensures
            final(self).width == old(self).width,
            final(self).height == old(self).height,
            final(self)@.len() == old(self)@.len(),
            forall|i: int|
                0 <= i < old(self)@.len() ==> #[trigger] final(self)@[i] == (old(self)@[i] || (
                coordinate_of(old(self).width as int, i).1 == row && start <= coordinate_of(
                    old(self).width as int,
                    i,
                ).0 < end)),
    {
        let width: usize = self.width;
        let ghost height = self.height as int;
        let ghost before = self@;
        assert(self.data.len() == self@.len());
        let first: usize = if start < 0 {
            0
        } else if start as usize > width {
            width
        } else {
            start as usize
        };
        let last: usize = if end < 0 {
            0
        } else if end as usize > width {
            width
        } else {
            end as usize
        };
        if width == 0 {
            assert(before.len() == 0) by (nonlinear_arith)
                requires
                    before.len() == width * height,
                    width == 0,
            ;
            return ;
        }
        proof {
            lemma_index_round_trip(width as int, height, 0, row as int);
            assert(row * width + width <= width * height) by (nonlinear_arith)
                requires
                    row < height,
            ;
        }
        let row_start: usize = row * width;
        let mut x: usize = first;
        while x < last
            invariant
                self.width == width,
                self.height == height,
                self@.len() == before.len(),
                before.len() == width * height,
                before.len() <= usize::MAX,
                row_start == row * width,
                row_start + width <= before.len(),
                first <= x,
                x <= last || x == first,
                last <= width,
                first <= width,
                forall|i: int|
                    0 <= i < before.len() ==> #[trigger] self@[i] == (before[i] || (row_start + first
                        <= i < row_start + x)),
            decreases last - x,
        {
            self.data[row_start + x] = true;
            x += 1;
        }
        proof {
            assert forall|i: int| 0 <= i < before.len() implies #[trigger] self@[i] == (before[i] || (
            coordinate_of(width as int, i).1 == row && start <= coordinate_of(width as int, i).0
                < end)) by {
                lemma_coordinate_round_trip(width as int, height, i);
                let (cx, cy) = coordinate_of(width as int, i);
                assert((start <= cx < end) == (first <= cx < last));
                if cy == row {
                    assert(cy * width == row * width) by (nonlinear_arith)
                        requires
                            cy == row,
                    ;
                    assert(i == row_start + cx);
                } else {
                    if row_start <= i < row_start + width {
                        lemma_index_round_trip(width as int, height, i - row_start, row as int);
                    }
                }
            }
        }
    }
}

} // verus!
