use vstd::prelude::*;
use crate::grid::Grid;
use crate::indexer::GridIndexer;
use crate::indexer::coordinate_of;
use crate::indexer::lemma_coordinate_round_trip;
use crate::indexer::lemma_index_round_trip;
use crate::indexer::linear_index;
use crate::sub_grid::clipped_end;

verus! {

/// The cell of an overlaid grid that lands on the cell `index` of the grid
/// below, if any does. The overlaid grid is `add_width` by `add_height`
/// cells and its top left corner lies at column `start_x` and row `start_y`.
pub open spec fn overlay_source(
    width: int,
    add_width: int,
    add_height: int,
    start_x: int,
    start_y: int,
    index: int,
) -> Option<int> {
    let (x, y) = coordinate_of(width, index);
    if start_x <= x < start_x + add_width && start_y <= y < start_y + add_height {
        Some(linear_index(add_width, x - start_x, y - start_y))
    } else {
        None
    }
}

/// The cell `index` of `after` is a clone of the overlaid cell that lands on
/// it, or the cell of `before` when none does.
pub open spec fn overlay_cell<T: Clone>(
    before: Seq<T>,
    after: Seq<T>,
    width: int,
    addition: Seq<T>,
    add_width: int,
    add_height: int,
    start_x: int,
    start_y: int,
    index: int,
) -> bool {
    match overlay_source(width, add_width, add_height, start_x, start_y, index) {
        Some(source) => cloned(addition[source], after[index]),
        None => after[index] == before[index],
    }
}

/// `after` is `before` with the cells of `addition` laid over it from the
/// given corner on; what would fall outside is left away.
pub open spec fn is_overlay<T: Clone>(
    before: Seq<T>,
    after: Seq<T>,
    width: int,
    addition: Seq<T>,
    add_width: int,
    add_height: int,
    start_x: int,
    start_y: int,
) -> bool {
    &&& after.len() == before.len()
    &&& forall|i: int|
        0 <= i < before.len() ==> #[trigger] overlay_cell(
            before,
            after,
            width,
            addition,
            add_width,
            add_height,
            start_x,
            start_y,
            i,
        )
}

impl<T: Clone> Grid<T> {
    /// Append another grid to overwrite part of the current one. Will ignore any pixels out of bounds.
    pub fn append(&mut self, addition: &Grid<T>)
        requires
            old(self).wf(),
            addition.wf(),
            old(self).width > 0,
        ensures
            final(self).width == old(self).width,
            final(self).height == old(self).height,
            is_overlay(
                old(self)@,
                final(self)@,
                old(self).width as int,
                addition@,
                addition.width as int,
                addition.height as int,
                0,
                0,
            ),
    {
        self.append_at(addition, 0usize)
    }

    /// Append another grid to overwrite part of the current one at the given position. Will ignore any pixels out of bounds.
    pub fn append_at<U: GridIndexer>(&mut self, addition: &Grid<T>, offset: U)
        requires
            old(self).wf(),
            addition.wf(),
            old(self).width > 0,
            0 <= offset.grid_index(old(self).width as int) <= usize::MAX,
        ensures
            final(self).width == old(self).width,
            final(self).height == old(self).height,
            is_overlay(
                old(self)@,
                final(self)@,
                old(self).width as int,
                addition@,
                addition.width as int,
                addition.height as int,
                coordinate_of(old(self).width as int, offset.grid_index(old(self).width as int)).0,
                coordinate_of(old(self).width as int, offset.grid_index(old(self).width as int)).1,
            ),
    {
        let overlap: [usize; 4] = self.overlap_between_this_and(addition, offset);
        let start_x: usize = overlap[0];
        let start_y: usize = overlap[1];
        let overlap_width: usize = overlap[2];
        let overlap_height: usize = overlap[3];
        let width: usize = self.width;
        let ghost height = self.height as int;
        let ghost before = self@;
        assert(self.data.len() == self@.len());
        assert(addition.data.len() == addition@.len());
        let mut row_index: usize = 0;
        while row_index < overlap_height
            invariant
                self.width == width,
                self.height == height,
                width > 0,
                self@.len() == before.len(),
                before.len() == width * height,
                before.len() <= usize::MAX,
                addition.wf(),
                addition@.len() <= usize::MAX,
                row_index <= overlap_height,
                start_x < width,
                start_x + overlap_width <= width,
                start_y + overlap_height <= height || overlap_height == 0,
                overlap_width <= addition.width,
                overlap_height <= addition.height,
                start_x + addition.width <= width ==> overlap_width == addition.width,
                start_x + addition.width > width ==> start_x + overlap_width == width,
                forall|i: int|
                    0 <= i < before.len() ==> #[trigger] overlay_cell(
                        before,
                        self@,
                        width as int,
                        addition@,
                        addition.width as int,
                        row_index as int,
                        start_x as int,
                        start_y as int,
                        i,
                    ),
            decreases overlap_height - row_index,
        {
            proof {
                lemma_index_round_trip(width as int, height, start_x as int, start_y + row_index);
                assert(0 <= row_index * addition.width) by (nonlinear_arith);
                assert(row_index * addition.width + addition.width <= addition.width
                    * addition.height) by (nonlinear_arith)
                    requires
                        row_index < addition.height,
                ;
            }
            let self_row_start_index: usize = (start_y + row_index) * width + start_x;
            let addition_row_start_index: usize = row_index * addition.width;
            let ghost row_before = self@;
            let mut cursor_x: usize = 0;
            while cursor_x < overlap_width
                invariant
                    self.width == width,
                    self.height == height,
                    width > 0,
                    self@.len() == before.len(),
                    before.len() == width * height,
                    before.len() <= usize::MAX,
                    addition@.len() <= usize::MAX,
                    addition@.len() == addition.width * addition.height,
                    cursor_x <= overlap_width,
                    row_index < overlap_height,
                    start_x + overlap_width <= width,
                    start_y + overlap_height <= height,
                    overlap_width <= addition.width,
                    self_row_start_index == linear_index(
                        width as int,
                        start_x as int,
                        start_y + row_index,
                    ),
                    addition_row_start_index == row_index * addition.width,
                    addition_row_start_index + addition.width <= addition@.len(),
                    forall|i: int|
                        0 <= i < before.len() ==> #[trigger] self@[i] == row_before[i] || (
                        self_row_start_index <= i < self_row_start_index + cursor_x),
                    forall|cx: int|
                        0 <= cx < cursor_x ==> cloned(
                            addition@[addition_row_start_index + cx],
                            #[trigger] self@[self_row_start_index + cx],
                        ),
                decreases overlap_width - cursor_x,
            {
                proof {
                    lemma_index_round_trip(
                        width as int,
                        height,
                        start_x + cursor_x,
                        start_y + row_index,
                    );
                }
                let value: T = addition.data[addition_row_start_index + cursor_x].clone();
                self.data[self_row_start_index + cursor_x] = value;
                cursor_x += 1;
            }
            proof {
                assert forall|i: int| 0 <= i < before.len() implies #[trigger] overlay_cell(
                    before,
                    self@,
                    width as int,
                    addition@,
                    addition.width as int,
                    row_index + 1,
                    start_x as int,
                    start_y as int,
                    i,
                ) by {
                    lemma_coordinate_round_trip(width as int, height, i);
                    let (x, y) = coordinate_of(width as int, i);
                    assert(overlay_cell(
                        before,
                        row_before,
                        width as int,
                        addition@,
                        addition.width as int,
                        row_index as int,
                        start_x as int,
                        start_y as int,
                        i,
                    ));
                    if y == start_y + row_index {
                        assert(y * width == (start_y + row_index) * width) by (nonlinear_arith)
                            requires
                                y == start_y + row_index,
                        ;
                        assert(i == self_row_start_index + (x - start_x));
                        if start_x <= x < start_x + overlap_width {
                            assert(cloned(
                                addition@[addition_row_start_index + (x - start_x)],
                                self@[self_row_start_index + (x - start_x)],
                            ));
                        } else {
                            assert(self@[i] == row_before[i]);
                        }
                    } else {
                        if self_row_start_index <= i < self_row_start_index + overlap_width {
                            lemma_index_round_trip(
                                width as int,
                                height,
                                start_x + (i - self_row_start_index),
                                start_y + row_index,
                            );
                        }
                        assert(self@[i] == row_before[i]);
                    }
                }
            }
            row_index += 1;
        }
        proof {
            assert forall|i: int| 0 <= i < before.len() implies #[trigger] overlay_cell(
                before,
                self@,
                width as int,
                addition@,
                addition.width as int,
                addition.height as int,
                start_x as int,
                start_y as int,
                i,
            ) by {
                lemma_coordinate_round_trip(width as int, height, i);
                assert(overlay_cell(
                    before,
                    self@,
                    width as int,
                    addition@,
                    addition.width as int,
                    overlap_height as int,
                    start_x as int,
                    start_y as int,
                    i,
                ));
            }
        }
    }

    /// Calculate the overlap between this grid and another.
    pub fn overlap_between_this_and<U, V: GridIndexer>(&self, grid: &Grid<U>, grid_offset: V) -> (overlap:
        [usize; 4])
        requires
            self.width > 0,
            0 <= grid_offset.grid_index(self.width as int) <= usize::MAX,
        ensures
            (overlap[0] as int, overlap[1] as int) == coordinate_of(
                self.width as int,
                grid_offset.grid_index(self.width as int),
            ),
            overlap[2] == clipped_end(overlap[0] as int, grid.width as int, self.width as int)
                - overlap[0],
            overlap[3] == clipped_end(overlap[1] as int, grid.height as int, self.height as int)
                - overlap[1],
    {
        let (start_x, start_y) = grid_offset.to_grid_xy(self);
        let overlap_width: usize = if grid.width <= self.width - start_x {
            grid.width
        } else {
            self.width - start_x
        };
        let overlap_height: usize = if start_y >= self.height {
            0
        } else if grid.height <= self.height - start_y {
            grid.height
        } else {
            self.height - start_y
        };
        [start_x, start_y, overlap_width, overlap_height]
    }
}

} // verus!
