use vstd::prelude::*;
use crate::errors::GridError;
use crate::grid::Grid;

verus! {

/// The linear index of the cell at column `x` and row `y`.
pub open spec fn linear_index(width: int, x: int, y: int) -> int {
    y * width + x
}

/// The column and row of the cell at a linear index.
pub open spec fn coordinate_of(width: int, index: int) -> (int, int) {
    (index % width, index / width)
}

/// `b` is one of the up to four cells next to `a` in a grid of `len` cells
/// laid out in rows of `width`: the cell left or right of it in the same
/// row, or the cell above or below it in the same column.
pub open spec fn is_neighbor(width: int, len: int, a: int, b: int) -> bool {
    &&& 0 <= a < len
    &&& 0 <= b < len
    &&& width > 0
    &&& {
        ||| (b == a - 1 && a % width > 0)
        ||| b == a - width
        ||| (b == a + 1 && a % width != width - 1)
        ||| b == a + width
    }
}

/// The neighbours of a cell in the order left, top, right, bottom, leaving
/// out those that would fall off the grid.
pub open spec fn neighbors_of(width: int, len: int, index: int) -> Seq<int> {
    (if index % width > 0 { seq![index - 1] } else { seq![] })
    + (if index >= width { seq![index - width] } else { seq![] })
    + (if index % width != width - 1 { seq![index + 1] } else { seq![] })
    + (if index < len - width { seq![index + width] } else { seq![] })
}

/// Converting a coordinate inside the grid to its index and back gives the
/// coordinate again.
pub proof fn lemma_index_round_trip(width: int, height: int, x: int, y: int)
    requires
        0 <= x < width,
        0 <= y < height,
    ensures
        0 <= linear_index(width, x, y) < width * height,
        coordinate_of(width, linear_index(width, x, y)) == (x, y),
{
    vstd::arithmetic::div_mod::lemma_fundamental_div_mod_converse(y * width + x, width, y, x);
    assert(y * width + x < width * height) by (nonlinear_arith)
        requires
            0 <= x < width,
            0 <= y < height,
    ;
    assert(0 <= y * width) by (nonlinear_arith)
        requires
            0 <= y,
            0 < width,
    ;
}

/// Converting an index to its coordinate and back gives the index again, and
/// the coordinate lies inside the grid.
pub proof fn lemma_coordinate_round_trip(width: int, height: int, index: int)
    requires
        0 < width,
        0 <= index < width * height,
    ensures
        0 <= coordinate_of(width, index).0 < width,
        0 <= coordinate_of(width, index).1 < height,
        linear_index(width, coordinate_of(width, index).0, coordinate_of(width, index).1) == index,
{
    vstd::arithmetic::div_mod::lemma_fundamental_div_mod(index, width);
    vstd::arithmetic::div_mod::lemma_mod_bound(index, width);
    let y = index / width;
    assert(0 <= y < height) by (nonlinear_arith)
        requires
            0 < width,
            0 <= index < width * height,
            y == index / width,
            index == width * y + index % width,
            0 <= index % width < width,
    ;
    assert(width * y == y * width) by (nonlinear_arith);
}

/// The listed neighbours of a cell are exactly the cells next to it.
pub proof fn lemma_neighbors_of(width: int, height: int, len: int, index: int)
    requires
        0 < width,
        0 <= height,
        len == width * height,
        0 <= index < len,
    ensures
        forall|b: int| #[trigger] neighbors_of(width, len, index).contains(b)
            <==> is_neighbor(width, len, index, b),
{
    let left = if index % width > 0 { seq![index - 1] } else { seq![] };
    let top = if index >= width { seq![index - width] } else { seq![] };
    let right = if index % width != width - 1 { seq![index + 1] } else { seq![] };
    let bottom = if index < len - width { seq![index + width] } else { seq![] };
    let all = neighbors_of(width, len, index);
    assert(all == left + top + right + bottom);
    lemma_row_end(width, height, index);
    assert forall|b: int| #[trigger] all.contains(b) <==> is_neighbor(width, len, index, b) by {
        if all.contains(b) {
            let k = choose|k: int| 0 <= k < all.len() && all[k] == b;
            assert(is_neighbor(width, len, index, b));
        }
        if is_neighbor(width, len, index, b) {
            if b == index - 1 && index % width > 0 {
                assert(all[0] == b);
            } else if b == index - width {
                assert(all[left.len() as int] == b);
            } else if b == index + 1 && index % width != width - 1 {
                assert(all[(left.len() + top.len()) as int] == b);
            } else {
                assert(all[(left.len() + top.len() + right.len()) as int] == b);
            }
        }
    }
}

/// A cell that is not the last of its row has a cell after it in the grid.
pub proof fn lemma_row_end(width: int, height: int, index: int)
    requires
        0 < width,
        0 <= index < width * height,
    ensures
        index % width != width - 1 ==> index + 1 < width * height,
        index % width > 0 ==> index - 1 >= 0,
{
    lemma_coordinate_round_trip(width, height, index);
    let x = index % width;
    let y = index / width;
    if x != width - 1 {
        assert(y * width + x + 1 < width * height) by (nonlinear_arith)
            requires
                0 <= x < width - 1,
                0 <= y < height,
        ;
    }
}

impl<T> Grid<T> {
    /// convert an X and Y coordinate to an index.
    pub fn xy_to_index(&self, x: usize, y: usize) -> (index: usize)
        requires
            linear_index(self.width as int, x as int, y as int) <= usize::MAX,
        ensures
            index == linear_index(self.width as int, x as int, y as int),
    {
        let row_start: usize = y * self.width;
        row_start + x
    }

    /// Convert an index to an X and Y coordinate.
    pub fn index_to_xy(&self, index: usize) -> (xy: [usize; 2])
        requires
            self.width > 0,
        ensures
            (xy[0] as int, xy[1] as int) == coordinate_of(self.width as int, index as int),
    {
        let x: usize = index % self.width;
        proof {
            vstd::arithmetic::div_mod::lemma_fundamental_div_mod(index as int, self.width as int);
            vstd::arithmetic::div_mod::lemma_fundamental_div_mod_converse(
                index - x,
                self.width as int,
                index as int / self.width as int,
                0,
            );
        }
        [x, (index - x) / self.width]
    }

    /// Wether or not the given index is valid in the grid.
    pub fn index_is_valid(&self, index: usize) -> (valid: bool)
        ensures
            valid <==> index < self@.len(),
    {
        index < self.data.len()
    }

    /// Wether or not the given and X and Y coordinate are valid in the grid.
    pub fn xy_is_valid(&self, x: usize, y: usize) -> (valid: bool)
        ensures
            valid <==> x < self.width && y < self.height,
    {
        x < self.width && y < self.height
    }

    /// Get the available neighbors for a specific index.
    pub fn index_neighbors<U: GridIndexer>(&self, index: U) -> (neighbors: Vec<usize>)
        requires
            self.wf(),
            0 <= index.grid_index(self.width as int) < self@.len(),
        ensures
            neighbors@.map_values(|n: usize| n as int) == neighbors_of(
                self.width as int,
                self@.len() as int,
                index.grid_index(self.width as int),
            ),
    {
        assert(self.data.len() == self@.len());
        assert(self.width > 0) by (nonlinear_arith)
            requires
                self.width * self.height > 0,
        ;
        let position_index: usize = index.to_grid_index(self);
        proof {
            lemma_coordinate_round_trip(self.width as int, self.height as int, position_index as int);
            assert(self@.len() - self.width >= 0) by (nonlinear_arith)
                requires
                    self@.len() == self.width * self.height,
                    self.height > 0,
            ;
        }
        let max_x: usize = self.width - 1;
        let max_y: usize = self.data.len() - self.width;
        self._index_neighbors(position_index, max_x, max_y)
    }

    /// A version of index_neighbors that takes arguments for repetitive calculations.
    pub fn _index_neighbors(&self, position_index: usize, max_x: usize, max_y: usize) -> (neighbors:
        Vec<usize>)
        requires
            self.wf(),
            position_index < self@.len(),
            max_x == self.width - 1,
            max_y == self@.len() - self.width,
        ensures
            neighbors@.map_values(|n: usize| n as int) == neighbors_of(
                self.width as int,
                self@.len() as int,
                position_index as int,
            ),
            neighbors@.len() <= 4,
            forall|k: int| 0 <= k < neighbors@.len() ==> is_neighbor(
                self.width as int,
                self@.len() as int,
                position_index as int,
                #[trigger] neighbors@[k] as int,
            ),
    {
        assert(self.data.len() == self@.len());
        proof {
            lemma_row_end(self.width as int, self.height as int, position_index as int);
        }
        let ghost spec_list = neighbors_of(self.width as int, self@.len() as int, position_index as int);
        let mut neighbors: Vec<usize> = Vec::with_capacity(4);
        if position_index % self.width > 0 {
            neighbors.push(position_index - 1);
        }
        if position_index >= self.width {
            neighbors.push(position_index - self.width);
        }
        if position_index % self.width != max_x {
            neighbors.push(position_index + 1);
        }
        if position_index < max_y {
            neighbors.push(position_index + self.width);
        }
        assert(neighbors@.map_values(|n: usize| n as int) =~= spec_list);
        proof {
            lemma_neighbors_of(
                self.width as int,
                self.height as int,
                self@.len() as int,
                position_index as int,
            );
            assert forall|k: int| 0 <= k < neighbors@.len() implies is_neighbor(
                self.width as int,
                self@.len() as int,
                position_index as int,
                #[trigger] neighbors@[k] as int,
            ) by {
                assert(spec_list[k] == neighbors@[k] as int);
                assert(spec_list.contains(spec_list[k]));
            }
        }
        neighbors
    }
}

/// Anything that can name a cell of a grid: a linear index or a coordinate.
pub trait GridIndexer {
    /// The linear index this value names in a grid of the given width.
    spec fn grid_index(&self, width: int) -> int;

    /// Convert the indexer to an actual index.
    fn to_grid_index<T>(&self, grid: &Grid<T>) -> (index: usize)
        requires
            self.grid_index(grid.width as int) <= usize::MAX,
        ensures
            index == self.grid_index(grid.width as int),
    ;

    /// Convert the index to a X and Y coordinate on the grid.
    fn to_grid_xy<T>(&self, grid: &Grid<T>) -> (xy: (usize, usize))
        requires
            self.grid_index(grid.width as int) <= usize::MAX,
            grid.width > 0,
        ensures
            (xy.0 as int, xy.1 as int) == coordinate_of(
                grid.width as int,
                self.grid_index(grid.width as int),
            ),
    {
        let index: usize = self.to_grid_index(grid);
        (index % grid.width, index / grid.width)
    }
}

impl GridIndexer for usize {
    open spec fn grid_index(&self, width: int) -> int {
        *self as int
    }

    fn to_grid_index<T>(&self, grid: &Grid<T>) -> (index: usize) {
        *self
    }
}

impl GridIndexer for [usize; 2] {
    open spec fn grid_index(&self, width: int) -> int {
        linear_index(width, self[0] as int, self[1] as int)
    }

    fn to_grid_index<T>(&self, grid: &Grid<T>) -> (index: usize) {
        let row_start: usize = self[1] * grid.width;
        row_start + self[0]
    }
}

impl GridIndexer for (usize, usize) {
    open spec fn grid_index(&self, width: int) -> int {
        linear_index(width, self.0 as int, self.1 as int)
    }

    fn to_grid_index<T>(&self, grid: &Grid<T>) -> (index: usize) {
        let row_start: usize = self.1 * grid.width;
        row_start + self.0
    }
}

impl<T, U: GridIndexer> vstd::std_specs::core::IndexSpecImpl<U> for Grid<T> {
    open spec fn index_req(&self, index: &U) -> bool {
        0 <= index.grid_index(self.width as int) < self@.len()
    }
}

impl<T, U: GridIndexer> std::ops::Index<U> for Grid<T> {
    type Output = T;

    /// The cell that the indexer names.
    fn index(&self, indexer: U) -> (cell: &T)
        ensures
            *cell == self@[indexer.grid_index(self.width as int)],
    {
        assert(self.data.len() == self@.len());
        &self.data[indexer.to_grid_index(self)]
    }
}

impl<T, U: GridIndexer> vstd::std_specs::core::IndexSpecImpl<std::ops::Range<U>> for Grid<T> {
    open spec fn index_req(&self, index: &std::ops::Range<U>) -> bool {
        0 <= index.start.grid_index(self.width as int) <= index.end.grid_index(self.width as int)
            <= self@.len()
    }
}

impl<T, U: GridIndexer> std::ops::Index<std::ops::Range<U>> for Grid<T> {
    type Output = [T];

    /// The cells from the one that the start of the range names up to the
    /// one that its end names.
    fn index(&self, indexer: std::ops::Range<U>) -> (cells: &[T])
        ensures
            cells@ == self@.subrange(
                indexer.start.grid_index(self.width as int),
                indexer.end.grid_index(self.width as int),
            ),
    {
        assert(self.data.len() == self@.len());
        let start: usize = indexer.start.to_grid_index(self);
        let end: usize = indexer.end.to_grid_index(self);
        vstd::slice::slice_subrange(self.data.as_slice(), start, end)
    }
}

impl<T> Grid<T> {
    /// A mutable reference to the cell that the indexer names.
    pub fn get_mut<U: GridIndexer>(&mut self, indexer: U) -> (cell: &mut T)
        requires
            0 <= indexer.grid_index(old(self).width as int) < old(self)@.len(),
        ensures
            *cell == old(self)@[indexer.grid_index(old(self).width as int)],
            final(self)@ == old(self)@.update(
                indexer.grid_index(old(self).width as int),
                *final(cell),
            ),
            final(self).width == old(self).width,
            final(self).height == old(self).height,
    {
        assert(self.data.len() == self@.len());
        let index: usize = indexer.to_grid_index(self);
        &mut self.data[index]
    }

    /// Overwrite the cell that the indexer names.
    pub fn set<U: GridIndexer>(&mut self, indexer: U, value: T)
        requires
            0 <= indexer.grid_index(old(self).width as int) < old(self)@.len(),
        ensures
            final(self)@ == old(self)@.update(indexer.grid_index(old(self).width as int), value),
            final(self).width == old(self).width,
            final(self).height == old(self).height,
    {
        assert(self.data.len() == self@.len());
        let index: usize = indexer.to_grid_index(self);
        self.data[index] = value;
    }
}


impl<T> Grid<T> {
    /// The cell that the indexer names, or an error where it names none.
    pub fn try_get<U: GridIndexer>(&self, indexer: U) -> (cell: Result<&T, GridError>)
        requires
            0 <= indexer.grid_index(self.width as int) <= usize::MAX,
        ensures
            match cell {
                Ok(cell) => indexer.grid_index(self.width as int) < self@.len() && *cell
                    == self@[indexer.grid_index(self.width as int)],
                Err(error) => error == GridError::OutOfBounds && indexer.grid_index(self.width as int)
                    >= self@.len(),
            },
    {
        let index: usize = indexer.to_grid_index(self);
        if index < self.data.len() {
            Ok(&self.data[index])
        } else {
            Err(GridError::OutOfBounds)
        }
    }

    /// Overwrite the cell that the indexer names, or give an error and
    /// leave the grid as it is where it names none.
    pub fn try_set<U: GridIndexer>(&mut self, indexer: U, value: T) -> (done: Result<(), GridError>)
        requires
            0 <= indexer.grid_index(old(self).width as int) <= usize::MAX,
        ensures
            final(self).width == old(self).width,
            final(self).height == old(self).height,
            match done {
                Ok(_) => indexer.grid_index(old(self).width as int) < old(self)@.len() && final(self)@
                    == old(self)@.update(indexer.grid_index(old(self).width as int), value),
                Err(error) => error == GridError::OutOfBounds && indexer.grid_index(
                    old(self).width as int,
                ) >= old(self)@.len() && final(self)@ == old(self)@,
            },
    {
        let index: usize = indexer.to_grid_index(self);
        if index < self.data.len() {
            self.data[index] = value;
            Ok(())
        } else {
            Err(GridError::OutOfBounds)
        }
    }

    /// The cell in column `x` of row `y`, or an error where the column or
    /// the row lies outside the grid.
    pub fn try_get_xy(&self, x: usize, y: usize) -> (cell: Result<&T, GridError>)
        requires
            self.wf(),
        ensures
            match cell {
                Ok(cell) => x < self.width && y < self.height && *cell == self@[linear_index(
                    self.width as int,
                    x as int,
                    y as int,
                )],
                Err(error) => error == GridError::OutOfBounds && !(x < self.width && y < self.height),
            },
    {
        if self.xy_is_valid(x, y) {
            proof {
                lemma_index_round_trip(self.width as int, self.height as int, x as int, y as int);
            }
            assert(self.data.len() == self@.len());
            Ok(&self.data[self.xy_to_index(x, y)])
        } else {
            Err(GridError::OutOfBounds)
        }
    }

    /// Overwrite the cell in column `x` of row `y`, or give an error and
    /// leave the grid as it is where the column or the row lies outside the
    /// grid.
    pub fn try_set_xy(&mut self, x: usize, y: usize, value: T) -> (done: Result<(), GridError>)
        requires
            old(self).wf(),
        ensures
            final(self).width == old(self).width,
            final(self).height == old(self).height,
            match done {
                Ok(_) => x < old(self).width && y < old(self).height && final(self)@ == old(
                    self,
                )@.update(linear_index(old(self).width as int, x as int, y as int), value),
                Err(error) => error == GridError::OutOfBounds && !(x < old(self).width && y < old(
                    self,
                ).height) && final(self)@ == old(self)@,
            },
    {
        if self.xy_is_valid(x, y) {
            proof {
                lemma_index_round_trip(self.width as int, self.height as int, x as int, y as int);
            }
            assert(self.data.len() == self@.len());
            let index: usize = self.xy_to_index(x, y);
            self.data[index] = value;
            Ok(())
        } else {
            Err(GridError::OutOfBounds)
        }
    }
}

} // verus!
