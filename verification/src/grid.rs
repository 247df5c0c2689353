use vstd::prelude::*;
use crate::errors::GridError;

verus! {

/// A rectangular grid of `width * height` cells kept row by row in one
/// buffer. The cell at column `x` and row `y` lives at `y * width + x`.
#[derive(Debug)]
pub struct Grid<T> {
    pub data: Vec<T>,
    pub width: usize,
    pub height: usize,
}

/// How many rows of `width` cells a buffer of `len` cells is cut into, the
/// last row holding what is left.
pub open spec fn row_count(len: int, width: int) -> int {
    (len + width - 1) / width
}

/// Where the given row of a buffer cut into rows of `width` cells ends.
pub open spec fn row_end(len: int, width: int, row: int) -> int {
    if (row + 1) * width <= len {
        (row + 1) * width
    } else {
        len
    }
}

/// A row that starts inside the buffer is one of its rows.
pub proof fn lemma_row_count(len: int, width: int, row: int)
    requires
        width > 0,
        0 <= row,
        row * width < len,
    ensures
        row < row_count(len, width),
        (row + 1) * width == row * width + width,
        row_end(len, width, row) >= len ==> row + 1 == row_count(len, width),
{
    assert((row + 1) * width == row * width + width) by (nonlinear_arith);
    let q = (len + width - 1) / width;
    vstd::arithmetic::div_mod::lemma_fundamental_div_mod(len + width - 1, width);
    vstd::arithmetic::div_mod::lemma_mod_bound(len + width - 1, width);
    assert(row < q) by (nonlinear_arith)
        requires
            width > 0,
            row * width < len,
            len + width - 1 == width * q + (len + width - 1) % width,
            0 <= (len + width - 1) % width < width,
    ;
    if row_end(len, width, row) >= len {
        assert(q <= row + 1) by (nonlinear_arith)
            requires
                width > 0,
                (row + 1) * width >= len,
                len + width - 1 == width * q + (len + width - 1) % width,
                0 <= (len + width - 1) % width < width,
        ;
    }
}

/// A buffer that ends exactly after `rows` full rows has that many rows.
pub proof fn lemma_row_count_full(len: int, width: int, rows: int)
    requires
        width > 0,
        0 <= rows,
        len == rows * width,
    ensures
        rows == row_count(len, width),
{
    let q = (len + width - 1) / width;
    vstd::arithmetic::div_mod::lemma_fundamental_div_mod(len + width - 1, width);
    vstd::arithmetic::div_mod::lemma_mod_bound(len + width - 1, width);
    assert(q == rows) by (nonlinear_arith)
        requires
            width > 0,
            len == rows * width,
            len + width - 1 == width * q + (len + width - 1) % width,
            0 <= (len + width - 1) % width < width,
    ;
}

impl<T> View for Grid<T> {
    type V = Seq<T>;

    /// The cells of the grid in row-major order.
    open spec fn view(&self) -> Seq<T> {
        self.data@
    }
}

impl<T> Grid<T> {
    /// The buffer holds exactly one cell for every coordinate.
    pub open spec fn wf(&self) -> bool {
        self.data@.len() == self.width * self.height
    }

    /// Create a new empty grid.
    pub fn empty() -> (grid: Grid<T>)
        ensures
            grid@ == Seq::<T>::empty(),
            grid.width == 0,
            grid.height == 0,
            grid.wf(),
    {
        Grid { data: Vec::new(), width: 0, height: 0 }
    }

    /// Create a new grid from a row-major buffer. The buffer is taken as it
    /// is; the grid is well-formed exactly when its length fits the sizes.
    pub fn new(data: Vec<T>, width: usize, height: usize) -> (grid: Grid<T>)
        ensures
            grid.data == data,
            grid.width == width,
            grid.height == height,
            grid.wf() <==> data@.len() == width * height,
    {
        Grid { data, width, height }
    }

    /// Create a new grid from a row-major buffer whose length has to fit the
    /// sizes: a buffer that is too short or too long is turned down.
    pub fn try_new(data: Vec<T>, width: usize, height: usize) -> (result: Result<Grid<T>, GridError>)
        ensures
            match result {
                Ok(grid) => grid.wf() && grid.data == data && grid.width == width && grid.height
                    == height,
                Err(error) => error == GridError::OutOfBounds && data@.len() != width * height,
            },
    {
        assert(data.len() == data@.len());
        let fits: bool = if width == 0 || height == 0 {
            assert(width * height == 0) by (nonlinear_arith)
                requires
                    width == 0 || height == 0,
            ;
            data.len() == 0
        } else if data.len() % width != 0 {
            proof {
                if data@.len() == width * height {
                    vstd::arithmetic::div_mod::lemma_fundamental_div_mod_converse(
                        data@.len() as int,
                        width as int,
                        height as int,
                        0,
                    );
                }
            }
            false
        } else {
            proof {
                vstd::arithmetic::div_mod::lemma_fundamental_div_mod(data@.len() as int, width as int);
                let rows = data@.len() as int / width as int;
                assert((rows == height) == (data@.len() == width * height)) by (nonlinear_arith)
                    requires
                        data@.len() == width * rows,
                        width > 0,
                ;
            }
            data.len() / width == height
        };
        if fits {
            Ok(Grid { data, width, height })
        } else {
            Err(GridError::OutOfBounds)
        }
    }

    /// Create a new grid with some data from a two-dimensional array.
    pub fn new_2d(data: Vec<Vec<T>>, width: usize, height: usize) -> (grid: Grid<T>)
        ensures
            grid@ == data@.map_values(|row: Vec<T>| row@).flatten(),
            grid.width == width,
            grid.height == height,
    {
        let ghost rows = data@.map_values(|row: Vec<T>| row@);
        let mut flat: Vec<T> = Vec::new();
        for row in row_iter: data
            invariant
                row_iter.seq() == data@,
                rows == data@.map_values(|row: Vec<T>| row@),
                flat@ == rows.take(row_iter.index() as int).flatten(),
        {
            let ghost before = flat@;
            let ghost row_index = row_iter.index() as int;
            for value in value_iter: row
                invariant
                    value_iter.seq() == row@,
                    flat@ == before + row@.take(value_iter.index() as int),
            {
                flat.push(value);
            }
            proof {
                assert(row@.take(row@.len() as int) == row@);
                assert(rows.take(row_index + 1) == rows.take(row_index).push(row@));
                rows.take(row_index).lemma_flatten_push(row@);
            }
        }
        proof {
            assert(rows.take(rows.len() as int) == rows);
        }
        Grid { data: flat, width, height }
    }

    /// Get the data of the grid.
    pub fn data(&self) -> (data: &Vec<T>)
        ensures
            data == &self.data,
    {
        &self.data
    }

    /// Get the data of the grid mutable.
    pub fn data_mut(&mut self) -> (data: &mut Vec<T>)
        ensures
            *data == old(self).data,
            final(self).data == *final(data),
            final(self).width == old(self).width,
            final(self).height == old(self).height,
    {
        &mut self.data
    }

    /// Get the data of the grid as rows.
    pub fn data_2d(&self) -> (rows: Vec<&[T]>)
        requires
            self.width > 0,
        ensures
            rows@.len() == row_count(self@.len() as int, self.width as int),
            forall|row: int| 0 <= row < rows@.len() ==> (#[trigger] rows@[row])@ == self@.subrange(
                row * self.width,
                row_end(self@.len() as int, self.width as int, row),
            ),
    {
        let mut rows: Vec<&[T]> = Vec::new();
        let len: usize = self.data.len();
        let mut start: usize = 0;
        proof {
            lemma_row_count_full(0, self.width as int, 0);
            assert(0 * self.width == 0) by (nonlinear_arith);
        }
        while start < len
            invariant
                self.width > 0,
                len == self@.len(),
                start <= len,
                start == len ==> rows@.len() == row_count(len as int, self.width as int),
                start < len ==> start == rows@.len() * self.width,
                forall|row: int| 0 <= row < rows@.len() ==> (#[trigger] rows@[row])@ == self@.subrange(
                    row * self.width,
                    row_end(len as int, self.width as int, row),
                ),
            decreases len - start,
        {
            let end: usize = if len - start < self.width { len } else { start + self.width };
            proof {
                lemma_row_count(len as int, self.width as int, rows@.len() as int);
            }
            let row: &[T] = vstd::slice::slice_subrange(self.data.as_slice(), start, end);
            rows.push(row);
            start = end;
        }
        rows
    }

    /// Get the width of the grid.
    pub fn width(&self) -> (width: usize)
        ensures
            width == self.width,
    {
        self.width
    }

    /// Get the height of the grid.
    pub fn height(&self) -> (height: usize)
        ensures
            height == self.height,
    {
        self.height
    }

    /// Get the length of the grid.
    pub fn len(&self) -> (len: usize)
        ensures
            len == self@.len(),
    {
        self.data.len()
    }

    /// Get wether or not the grid has no data.
    pub fn is_empty(&self) -> (empty: bool)
        ensures
            empty <==> self@.len() == 0,
    {
        self.data.len() == 0
    }
}

/// Whether the tile that holds the cell at column `x` and row `y` of a
/// checkers board shows the first of its two values.
pub open spec fn checkers_first(tile_size: int, x: int, y: int) -> bool {
    (x / tile_size + y / tile_size) % 2 == 0
}

impl<T: Clone> Grid<T> {
    /// Create a checkers board of `tiles` by `tiles` square tiles, each
    /// `tile_size` cells wide, that alternate between the two values and
    /// start with `tile_a` in the top left corner.
    pub fn checkers_board(tiles: usize, tile_size: usize, tile_a: T, tile_b: T) -> (grid: Grid<T>)
        requires
            (tiles * tile_size) * (tiles * tile_size) <= usize::MAX,
        ensures
            grid.wf(),
            grid.width == tiles * tile_size,
            grid.height == tiles * tile_size,
            forall|x: int, y: int|
                0 <= x < grid.width && 0 <= y < grid.height ==> cloned(
                    if checkers_first(tile_size as int, x, y) {
                        tile_a
                    } else {
                        tile_b
                    },
                    #[trigger] grid@[y * grid.width + x],
                ),
    {
        assert(tiles * tile_size <= usize::MAX) by (nonlinear_arith)
            requires
                (tiles * tile_size) * (tiles * tile_size) <= usize::MAX,
        ;
        let size: usize = tiles * tile_size;
        let mut data: Vec<T> = Vec::new();
        let mut y: usize = 0;
        while y < size
            invariant
                y <= size,
                size * size <= usize::MAX,
                tile_size > 0 || size == 0,
                data@.len() == y * size,
                forall|cx: int, cy: int|
                    0 <= cx < size && 0 <= cy < y ==> cloned(
                        if checkers_first(tile_size as int, cx, cy) {
                            tile_a
                        } else {
                            tile_b
                        },
                        #[trigger] data@[cy * size + cx],
                    ),
            decreases size - y,
        {
            let mut x: usize = 0;
            let ghost before = data@;
            while x < size
                invariant
                    x <= size,
                    y < size,
                    tile_size > 0,
                    size * size <= usize::MAX,
                    data@.len() == y * size + x,
                    before.len() == y * size,
                    data@.take(before.len() as int) == before,
                    forall|cx: int|
                        0 <= cx < x ==> cloned(
                            if checkers_first(tile_size as int, cx, y as int) {
                                tile_a
                            } else {
                                tile_b
                            },
                            #[trigger] data@[y * size + cx],
                        ),
                decreases size - x,
            {
                let first: bool = (x / tile_size) % 2 == (y / tile_size) % 2;
                let value: T = if first {
                    tile_a.clone()
                } else {
                    tile_b.clone()
                };
                data.push(value);
                x += 1;
            }
            proof {
                assert forall|cx: int, cy: int| 0 <= cx < size && 0 <= cy < y + 1 implies cloned(
                    if checkers_first(tile_size as int, cx, cy) {
                        tile_a
                    } else {
                        tile_b
                    },
                    #[trigger] data@[cy * size + cx],
                ) by {
                    if cy < y {
                        assert(cy * size + cx < y * size) by (nonlinear_arith)
                            requires
                                0 <= cx < size,
                                0 <= cy < y,
                        ;
                        assert(data@[cy * size + cx] == data@.take(before.len() as int)[cy * size + cx]);
                    }
                }
                assert((y + 1) * size == y * size + size) by (nonlinear_arith);
            }
            y += 1;
        }
        Grid { data, width: size, height: size }
    }
}

impl<T> Default for Grid<T> {
    /// The empty grid.
    fn default() -> (grid: Grid<T>)
        ensures
            grid@ == Seq::<T>::empty(),
            grid.width == 0,
            grid.height == 0,
    {
        Grid::empty()
    }
}

impl<T: Clone> Clone for Grid<T> {
    /// A grid of the same size whose cells are clones of this one's.
    fn clone(&self) -> (grid: Grid<T>)
        ensures
            grid.width == self.width,
            grid.height == self.height,
            grid@.len() == self@.len(),
            forall|i: int| 0 <= i < self@.len() ==> cloned(self@[i], #[trigger] grid@[i]),
    {
        Grid { data: self.data.clone(), width: self.width, height: self.height }
    }
}

} // verus!
