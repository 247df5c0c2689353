use vstd::prelude::*;
use crate::grid::Grid;
use crate::indexer::coordinate_of;
use crate::indexer::lemma_coordinate_round_trip;

verus! {

impl<T> IntoIterator for Grid<T> {
    type Item = T;

    type IntoIter = std::vec::IntoIter<T>;

    /// The cells of the grid in row-major order.
    fn into_iter(self) -> (iterator: std::vec::IntoIter<T>)
        ensures
            iterator == vstd::std_specs::vec::spec_into_iter(self.data),
    {
        self.data.into_iter()
    }
}

impl<'a, T> IntoIterator for &'a Grid<T> {
    type Item = &'a T;

    type IntoIter = std::slice::Iter<'a, T>;

    /// The cells of the grid in row-major order, by reference.
    fn into_iter(self) -> (iterator: std::slice::Iter<'a, T>)
        ensures
            iterator == vstd::std_specs::vec::spec_into_iter_borrowed(&self.data),
    {
        (&self.data).into_iter()
    }
}

/// A cursor over the cells of a grid that gives each cell with its column
/// and row, row by row.
pub struct PixelIterator<'a, T> {
    pub grid: &'a Grid<T>,
    pub grid_len: usize,
    pub x: usize,
    pub y: usize,
    pub index: usize,
}

impl<'a, T> PixelIterator<'a, T> {
    /// The cursor stands at a cell of a well-formed grid, or behind the
    /// last one, and knows the column and row of the cell it stands at.
    pub open spec fn wf(&self) -> bool {
        &&& self.grid.wf()
        &&& self.grid_len == self.grid@.len()
        &&& self.index <= self.grid_len
        &&& self.index < self.grid_len ==> (self.x as int, self.y as int) == coordinate_of(
            self.grid.width as int,
            self.index as int,
        )
    }

    /// The next cell with its column and row, or `None` behind the last
    /// cell.
    pub fn next(&mut self) -> (item: Option<(usize, usize, &'a T)>)
        requires
            old(self).wf(),
        ensures
            final(self).wf(),
            final(self).grid == old(self).grid,
            match item {
                Some((x, y, value)) => {
                    &&& old(self).index < old(self).grid@.len()
                    &&& final(self).index == old(self).index + 1
                    &&& (x as int, y as int) == coordinate_of(
                        old(self).grid.width as int,
                        old(self).index as int,
                    )
                    &&& *value == old(self).grid@[old(self).index as int]
                },
                None => old(self).index >= old(self).grid@.len() && final(self).index == old(
                    self,
                ).index,
            },
    {
        if self.index < self.grid_len {
            assert(self.grid.width > 0) by (nonlinear_arith)
                requires
                    self.grid.width * self.grid.height > 0,
            ;
            proof {
                lemma_coordinate_round_trip(
                    self.grid.width as int,
                    self.grid.height as int,
                    self.index as int,
                );
                if self.index + 1 < self.grid_len {
                    lemma_coordinate_round_trip(
                        self.grid.width as int,
                        self.grid.height as int,
                        self.index + 1,
                    );
                    lemma_next_coordinate(self.grid.width as int, self.index as int);
                }
            }
            let value: (usize, usize, &'a T) = (self.x, self.y, &self.grid.data[self.index]);
            self.index += 1;
            self.x += 1;
            if self.x == self.grid.width {
                self.x = 0;
                if self.index < self.grid_len {
                    self.y += 1;
                }
            }
            Some(value)
        } else {
            None
        }
    }
}

/// The cell after a cell lies one column further in the same row, or at
/// the start of the next row.
pub proof fn lemma_next_coordinate(width: int, index: int)
    requires
        width > 0,
        index >= 0,
    ensures
        coordinate_of(width, index + 1) == if coordinate_of(width, index).0 + 1 == width {
            (0int, coordinate_of(width, index).1 + 1)
        } else {
            (coordinate_of(width, index).0 + 1, coordinate_of(width, index).1)
        },
{
    vstd::arithmetic::div_mod::lemma_fundamental_div_mod(index, width);
    vstd::arithmetic::div_mod::lemma_mod_bound(index, width);
    let x = index % width;
    let y = index / width;
    if x + 1 == width {
        assert(index + 1 == (y + 1) * width + 0) by (nonlinear_arith)
            requires
                index == width * y + x,
                x + 1 == width,
        ;
        vstd::arithmetic::div_mod::lemma_fundamental_div_mod_converse(index + 1, width, y + 1, 0);
    } else {
        assert(index + 1 == y * width + (x + 1)) by (nonlinear_arith)
            requires
                index == width * y + x,
        ;
        vstd::arithmetic::div_mod::lemma_fundamental_div_mod_converse(index + 1, width, y, x + 1);
    }
}

/// A cursor over the cells of a grid that gives each cell, open to change,
/// with its column and row, row by row.
pub struct PixelIteratorMut<'a, T> {
    pub grid: &'a mut Grid<T>,
    pub x: usize,
    pub y: usize,
    pub index: usize,
}

impl<'a, T> PixelIteratorMut<'a, T> {
    /// The cursor stands at a cell of a well-formed grid, or behind the
    /// last one, and knows the column and row of the cell it stands at.
    pub open spec fn wf(&self) -> bool {
        &&& self.grid.wf()
        &&& self.index <= self.grid@.len()
        &&& self.index < self.grid@.len() ==> (self.x as int, self.y as int) == coordinate_of(
            self.grid.width as int,
            self.index as int,
        )
    }

    /// The next cell, open to change, with its column and row, or `None`
    /// behind the last cell.
    pub fn next(&mut self) -> (item: Option<(usize, usize, &mut T)>)
        requires
            old(self).wf(),
        ensures
            final(self).wf(),
            final(self).grid.width == old(self).grid.width,
            final(self).grid.height == old(self).grid.height,
            match item {
                Some((x, y, value)) => {
                    &&& old(self).index < old(self).grid@.len()
                    &&& final(self).index == old(self).index + 1
                    &&& (x as int, y as int) == coordinate_of(
                        old(self).grid.width as int,
                        old(self).index as int,
                    )
                    &&& *value == old(self).grid@[old(self).index as int]
                    &&& final(self).grid@ == old(self).grid@.update(
                        old(self).index as int,
                        *final(value),
                    )
                },
                None => old(self).index >= old(self).grid@.len() && final(self).index == old(
                    self,
                ).index && final(self).grid@ == old(self).grid@,
            },
    {
        assert(self.grid.data.len() == self.grid@.len());
        if self.index < self.grid.data.len() {
            assert(self.grid.width > 0) by (nonlinear_arith)
                requires
                    self.grid.width * self.grid.height > 0,
            ;
            proof {
                lemma_coordinate_round_trip(
                    self.grid.width as int,
                    self.grid.height as int,
                    self.index as int,
                );
                if self.index + 1 < self.grid@.len() {
                    lemma_coordinate_round_trip(
                        self.grid.width as int,
                        self.grid.height as int,
                        self.index + 1,
                    );
                    lemma_next_coordinate(self.grid.width as int, self.index as int);
                }
            }
            let x: usize = self.x;
            let y: usize = self.y;
            let index: usize = self.index;
            self.index += 1;
            self.x += 1;
            if self.x == self.grid.width {
                self.x = 0;
                if self.index < self.grid.data.len() {
                    self.y += 1;
                }
            }
            Some((x, y, &mut self.grid.data[index]))
        } else {
            None
        }
    }
}

impl<T> Grid<T> {
    /// Iterate over pixels with their according X and Y coordinate.
    pub fn pixel_iterator(&self) -> (iterator: PixelIterator<T>)
        requires
            self.wf(),
        ensures
            iterator.wf(),
            iterator.grid == self,
            iterator.index == 0,
    {
        proof {
            if self@.len() > 0 {
                assert(self.width > 0) by (nonlinear_arith)
                    requires
                        self.width * self.height > 0,
                ;
                lemma_coordinate_round_trip(self.width as int, self.height as int, 0);
            }
        }
        PixelIterator { grid: self, grid_len: self.data.len(), x: 0, y: 0, index: 0 }
    }

    /// Iterate over mutable pixels with their according X and Y coordinate.
    pub fn pixel_iterator_mut(&mut self) -> (iterator: PixelIteratorMut<T>)
        requires
            old(self).wf(),
        ensures
            iterator.wf(),
            iterator.index == 0,
            *iterator.grid == *old(self),
            *final(self) == *final(iterator.grid),
    {
        proof {
            if self@.len() > 0 {
                assert(self.width > 0) by (nonlinear_arith)
                    requires
                        self.width * self.height > 0,
                ;
                lemma_coordinate_round_trip(self.width as int, self.height as int, 0);
            }
        }
        PixelIteratorMut { grid: self, x: 0, y: 0, index: 0 }
    }
}

} // verus!
