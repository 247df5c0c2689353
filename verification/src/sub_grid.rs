use vstd::prelude::*;
use crate::grid::Grid;
use crate::indexer::lemma_index_round_trip;
use crate::indexer::linear_index;

verus! {

/// Where a window that starts at `start` and is `size` long ends once it is
/// cut off at `limit`; a window that starts behind the limit is empty.
pub open spec fn clipped_end(start: int, size: int, limit: int) -> int {
    let end = if start + size <= limit {
        start + size
    } else {
        limit
    };
    if end >= start {
        end
    } else {
        start
    }
}

fn clip_end(start: usize, size: usize, limit: usize) -> (end: usize)
    ensures
        end == clipped_end(start as int, size as int, limit as int),
{
    let end: usize = if limit >= start && size <= limit - start {
        start + size
    } else {
        limit
    };
    if end >= start {
        end
    } else {
        start
    }
}

impl<T> Grid<T> {
    /// Create a sub-grid. Bounds are XYWH. The part of the bounds that lies
    /// outside the grid is cut off.
    pub fn sub_grid(&self, bounds: [usize; 4]) -> (sub: Grid<&T>)
        requires
            self.wf(),
        ensures
            sub.wf(),
            sub.width == clipped_end(bounds[0] as int, bounds[2] as int, self.width as int)
                - bounds[0],
            sub.height == clipped_end(bounds[1] as int, bounds[3] as int, self.height as int)
                - bounds[1],
            forall|x: int, y: int|
                0 <= x < sub.width && 0 <= y < sub.height ==> *(#[trigger] sub@[linear_index(
                    sub.width as int,
                    x,
                    y,
                )]) == self@[linear_index(self.width as int, bounds[0] + x, bounds[1] + y)],
    {
        let end_x: usize = clip_end(bounds[0], bounds[2], self.width);
        let end_y: usize = clip_end(bounds[1], bounds[3], self.height);
        let sub_width: usize = end_x - bounds[0];
        let sub_height: usize = end_y - bounds[1];
        let mut sub_data: Vec<&T> = Vec::new();
        if sub_width == 0 {
            assert(sub_data@.len() == sub_width * sub_height) by (nonlinear_arith)
                requires
                    sub_width == 0,
                    sub_data@.len() == 0,
            ;
            return Grid::new(sub_data, sub_width, sub_height);
        }
        let mut y: usize = bounds[1];
        while y < end_y
            invariant
                self.wf(),
                bounds[1] <= y <= end_y,
                end_y <= self.height || end_y == bounds[1],
                bounds[0] < end_x <= self.width,
                sub_width == end_x - bounds[0],
                sub_data@.len() == (y - bounds[1]) * sub_width,
                forall|cx: int, cy: int|
                    0 <= cx < sub_width && 0 <= cy < y - bounds[1] ==> *(
                    #[trigger] sub_data@[linear_index(sub_width as int, cx, cy)]) == self@[linear_index(
                        self.width as int,
                        bounds[0] + cx,
                        bounds[1] + cy,
                    )],
            decreases end_y - y,
        {
            let ghost before = sub_data@;
            let mut x: usize = bounds[0];
            while x < end_x
                invariant
                    self.wf(),
                    bounds[0] <= x <= end_x,
                    bounds[0] < end_x <= self.width,
                    y < self.height,
                    sub_width == end_x - bounds[0],
                    before.len() == (y - bounds[1]) * sub_width,
                    sub_data@.len() == before.len() + (x - bounds[0]),
                    sub_data@.take(before.len() as int) == before,
                    forall|cx: int|
                        0 <= cx < x - bounds[0] ==> *(#[trigger] sub_data@[before.len() + cx])
                            == self@[linear_index(self.width as int, bounds[0] + cx, y as int)],
                decreases end_x - x,
            {
                proof {
                    lemma_index_round_trip(self.width as int, self.height as int, x as int, y as int);
                    assert(self.data.len() == self@.len());
                }
                sub_data.push(&self.data[y * self.width + x]);
                x += 1;
            }
            proof {
                let row = y - bounds[1];
                assert((row + 1) * sub_width == row * sub_width + sub_width) by (nonlinear_arith);
                assert forall|cx: int, cy: int| 0 <= cx < sub_width && 0 <= cy < row + 1 implies *(
                #[trigger] sub_data@[linear_index(sub_width as int, cx, cy)]) == self@[linear_index(
                    self.width as int,
                    bounds[0] + cx,
                    bounds[1] + cy,
                )] by {
                    if cy < row {
                        lemma_index_round_trip(sub_width as int, row, cx, cy);
                        assert(sub_data@[linear_index(sub_width as int, cx, cy)] == sub_data@.take(
                            before.len() as int,
                        )[linear_index(sub_width as int, cx, cy)]);
                    } else {
                        assert(linear_index(sub_width as int, cx, cy) == before.len() + cx);
                    }
                }
            }
            y += 1;
        }
        assert(sub_data@.len() == sub_width * sub_height) by (nonlinear_arith)
            requires
                sub_data@.len() == (y - bounds[1]) * sub_width,
                sub_height == y - bounds[1],
        ;
        Grid::new(sub_data, sub_width, sub_height)
    }

    /// Create a sub-grid of the same size as this grid.
    pub fn full_sub_grid(&self) -> (sub: Grid<&T>)
        requires
            self.wf(),
        ensures
            sub.wf(),
            sub.width == self.width,
            sub.height == self.height,
            sub@.len() == self@.len(),
            forall|i: int| 0 <= i < self@.len() ==> *(#[trigger] sub@[i]) == self@[i],
    {
        let sub = self.sub_grid([0, 0, self.width, self.height]);
        proof {
            assert forall|i: int| 0 <= i < self@.len() implies *(#[trigger] sub@[i]) == self@[i] by {
                crate::indexer::lemma_coordinate_round_trip(
                    self.width as int,
                    self.height as int,
                    i,
                );
                let x = i % (self.width as int);
                let y = i / (self.width as int);
                assert(sub@[linear_index(sub.width as int, x, y)] == sub@[i]);
            }
        }
        sub
    }

    /// Take a specific sub-field of self. Bounds are XYWH and have to lie
    /// inside the grid.
    pub fn take(self, bounds: [usize; 4]) -> (taken: Grid<T>)
        requires
            self.wf(),
            bounds[0] + bounds[2] <= self.width,
            bounds[1] + bounds[3] <= self.height,
        ensures
            taken.wf(),
            taken.width == bounds[2],
            taken.height == bounds[3],
            forall|x: int, y: int|
                0 <= x < bounds[2] && 0 <= y < bounds[3] ==> #[trigger] taken@[linear_index(
                    bounds[2] as int,
                    x,
                    y,
                )] == self@[linear_index(self.width as int, bounds[0] + x, bounds[1] + y)],
    {
        let width: usize = self.width;
        let ghost height = self.height;
        let ghost initial = self@;
        let mut data: Vec<T> = self.data;
        let mut rows: Vec<Vec<T>> = Vec::new();
        let mut remaining: usize = bounds[3];
        proof {
            assert(width * height >= (bounds[1] + bounds[3]) * width) by (nonlinear_arith)
                requires
                    bounds[1] + bounds[3] <= height,
            ;
        }
        while remaining > 0
            invariant
                remaining <= bounds[3],
                bounds[0] + bounds[2] <= width,
                bounds[1] + bounds[3] <= height,
                initial.len() == width * height,
                data@.len() <= initial.len(),
                data@ == initial.take(data@.len() as int),
                remaining > 0 ==> data@.len() >= (bounds[1] + remaining) * width,
                rows@.len() == bounds[3] - remaining,
                forall|k: int| 0 <= k < rows@.len() ==> (#[trigger] rows@[k])@.len() == bounds[2],
                forall|k: int, x: int|
                    0 <= k < rows@.len() && 0 <= x < bounds[2] ==> #[trigger] rows@[k]@[x]
                        == initial[linear_index(
                        width as int,
                        bounds[0] + x,
                        bounds[1] + bounds[3] - 1 - k,
                    )],
            decreases remaining,
        {
            let row_index: usize = bounds[1] + remaining - 1;
            proof {
                assert((bounds[1] + remaining) * width == row_index * width + width)
                    by (nonlinear_arith)
                    requires
                        row_index == bounds[1] + remaining - 1,
                ;
                assert(0 <= row_index * width) by (nonlinear_arith);
                assert(data.len() == data@.len());
            }
            let data_start: usize = row_index * width + bounds[0];
            assert(data.len() == data@.len());
            let mut row: Vec<T> = data.split_off(data_start);
            row.truncate(bounds[2]);
            proof {
                assert forall|x: int| 0 <= x < bounds[2] implies #[trigger] row@[x]
                    == initial[linear_index(width as int, bounds[0] + x, row_index as int)] by {
                    assert(row@[x] == initial[data_start + x]);
                }
            }
            rows.push(row);
            remaining -= 1;
            proof {
                assert(data@.len() >= (bounds[1] + remaining) * width) by (nonlinear_arith)
                    requires
                        data@.len() == row_index * width + bounds[0],
                        row_index == bounds[1] + remaining,
                ;
            }
        }
        let mut taken: Vec<T> = Vec::new();
        let mut done: usize = 0;
        while done < bounds[3]
            invariant
                done <= bounds[3],
                rows@.len() == bounds[3] - done,
                taken@.len() == done * bounds[2],
                forall|k: int| 0 <= k < rows@.len() ==> (#[trigger] rows@[k])@.len() == bounds[2],
                forall|k: int, x: int|
                    0 <= k < rows@.len() && 0 <= x < bounds[2] ==> #[trigger] rows@[k]@[x]
                        == initial[linear_index(
                        width as int,
                        bounds[0] + x,
                        bounds[1] + bounds[3] - 1 - k,
                    )],
                forall|x: int, y: int|
                    0 <= x < bounds[2] && 0 <= y < done ==> #[trigger] taken@[linear_index(
                        bounds[2] as int,
                        x,
                        y,
                    )] == initial[linear_index(width as int, bounds[0] + x, bounds[1] + y)],
            decreases bounds[3] - done,
        {
            let ghost before = taken@;
            let ghost rows_before = rows@;
            let ghost top = rows@[rows@.len() - 1]@;
            let mut row: Vec<T> = rows.pop().unwrap();
            taken.append(&mut row);
            proof {
                assert(taken@ == before + top);
                assert((done + 1) * bounds[2] == done * bounds[2] + bounds[2]) by (nonlinear_arith);
                assert forall|x: int, y: int| 0 <= x < bounds[2] && 0 <= y < done + 1 implies
                    #[trigger] taken@[linear_index(bounds[2] as int, x, y)] == initial[linear_index(
                    width as int,
                    bounds[0] + x,
                    bounds[1] + y,
                )] by {
                    if y < done {
                        lemma_index_round_trip(bounds[2] as int, done as int, x, y);
                        assert(bounds[2] * done == done * bounds[2]) by (nonlinear_arith);
                        assert(taken@[linear_index(bounds[2] as int, x, y)] == before[linear_index(
                            bounds[2] as int,
                            x,
                            y,
                        )]);
                    } else {
                        assert(linear_index(bounds[2] as int, x, y) == before.len() + x);
                        assert(taken@[before.len() + x] == top[x]);
                        assert(top[x] == rows_before[rows_before.len() - 1]@[x]);
                    }
                }
            }
            done += 1;
        }
        assert(taken@.len() == bounds[2] * bounds[3]) by (nonlinear_arith)
            requires
                taken@.len() == done * bounds[2],
                done == bounds[3],
        ;
        Grid::new(taken, bounds[2], bounds[3])
    }
}

} // verus!
