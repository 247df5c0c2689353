use vstd::prelude::*;
use crate::appending::is_overlay;
use crate::appending::overlay_cell;
use crate::appending::overlay_source;
use crate::grid::Grid;
use crate::indexer::coordinate_of;
use crate::indexer::lemma_index_round_trip;
use crate::indexer::linear_index;

verus! {

/// The greatest width among the first `rows` grids of a column of a grid of
/// grids.
pub open spec fn column_width_upto<T>(tiles: Seq<Grid<T>>, columns: int, x: int, rows: int) -> nat
    decreases rows,
{
    if rows <= 0 {
        0
    } else {
        let above = column_width_upto(tiles, columns, x, rows - 1);
        let width = tiles[linear_index(columns, x, rows - 1)].width as nat;
        if width > above {
            width
        } else {
            above
        }
    }
}

/// The greatest height among the first `columns_done` grids of a row of a
/// grid of grids.
pub open spec fn row_height_upto<T>(tiles: Seq<Grid<T>>, columns: int, y: int, columns_done: int) -> nat
    decreases columns_done,
{
    if columns_done <= 0 {
        0
    } else {
        let before = row_height_upto(tiles, columns, y, columns_done - 1);
        let height = tiles[linear_index(columns, columns_done - 1, y)].height as nat;
        if height > before {
            height
        } else {
            before
        }
    }
}

/// Where a column of a flattened grid of grids starts: behind the columns
/// before it, each as wide as its widest grid.
pub open spec fn column_start<T>(tiles: Seq<Grid<T>>, columns: int, rows: int, x: int) -> nat
    decreases x,
{
    if x <= 0 {
        0
    } else {
        column_start(tiles, columns, rows, x - 1) + column_width_upto(tiles, columns, x - 1, rows)
    }
}

/// Where a row of a flattened grid of grids starts: below the rows before
/// it, each as high as its highest grid.
pub open spec fn row_start<T>(tiles: Seq<Grid<T>>, columns: int, y: int) -> nat
    decreases y,
{
    if y <= 0 {
        0
    } else {
        row_start(tiles, columns, y - 1) + row_height_upto(tiles, columns, y - 1, columns)
    }
}

/// No grid of a column is wider than the column, no grid of a row higher
/// than the row.
pub proof fn lemma_tile_fits<T>(tiles: Seq<Grid<T>>, columns: int, rows: int, x: int, y: int)
    requires
        0 <= x < columns,
        0 <= y < rows,
    ensures
        tiles[linear_index(columns, x, y)].width <= column_width_upto(tiles, columns, x, rows),
        tiles[linear_index(columns, x, y)].height <= row_height_upto(tiles, columns, y, columns),
{
    lemma_column_width_grows(tiles, columns, x, y + 1, rows);
    lemma_row_height_grows(tiles, columns, y, x + 1, columns);
}

/// The greatest width among more grids of a column is no smaller.
pub proof fn lemma_column_width_grows<T>(tiles: Seq<Grid<T>>, columns: int, x: int, fewer: int, more: int)
    requires
        fewer <= more,
    ensures
        column_width_upto(tiles, columns, x, fewer) <= column_width_upto(tiles, columns, x, more),
    decreases more - fewer,
{
    if fewer < more {
        lemma_column_width_grows(tiles, columns, x, fewer, more - 1);
    }
}

/// The greatest height among more grids of a row is no smaller.
pub proof fn lemma_row_height_grows<T>(tiles: Seq<Grid<T>>, columns: int, y: int, fewer: int, more: int)
    requires
        fewer <= more,
    ensures
        row_height_upto(tiles, columns, y, fewer) <= row_height_upto(tiles, columns, y, more),
    decreases more - fewer,
{
    if fewer < more {
        lemma_row_height_grows(tiles, columns, y, fewer, more - 1);
    }
}

/// A later column starts where an earlier one ends, or further right; a
/// later row where an earlier one ends, or further down.
pub proof fn lemma_starts_grow<T>(tiles: Seq<Grid<T>>, columns: int, rows: int, earlier: int, later: int)
    requires
        0 <= earlier < later,
    ensures
        column_start(tiles, columns, rows, earlier) + column_width_upto(tiles, columns, earlier, rows)
            <= column_start(tiles, columns, rows, later),
        row_start(tiles, columns, earlier) + row_height_upto(tiles, columns, earlier, columns)
            <= row_start(tiles, columns, later),
    decreases later - earlier,
{
    if earlier + 1 < later {
        lemma_starts_grow(tiles, columns, rows, earlier, later - 1);
    }
}

/// The cell `index` of a flattened grid lies in the part that the grid in
/// column `x` and row `y` of the grid of grids fills, and `source` is the
/// cell of that grid that lands on it.
pub open spec fn is_tile_cell<T>(
    tiles: Seq<Grid<T>>,
    columns: int,
    rows: int,
    flat_width: int,
    x: int,
    y: int,
    index: int,
    source: int,
) -> bool {
    let tile = tiles[linear_index(columns, x, y)];
    let (px, py) = coordinate_of(flat_width, index);
    let cx = px - column_start(tiles, columns, rows, x);
    let cy = py - row_start(tiles, columns, y);
    &&& 0 <= x < columns
    &&& 0 <= y < rows
    &&& 0 <= index
    &&& 0 <= cx < tile.width
    &&& 0 <= cy < tile.height
    &&& source == linear_index(tile.width as int, cx, cy)
}

/// The grid in column `x` of row `y` comes before the one in column
/// `done_x` of row `done_y` when the grids are taken row by row.
pub open spec fn tile_before(x: int, y: int, done_x: int, done_y: int) -> bool {
    y < done_y || (y == done_y && x < done_x)
}

/// The cell lies in the part of a grid that comes before the one in column
/// `done_x` of row `done_y`.
pub open spec fn is_covered<T>(
    tiles: Seq<Grid<T>>,
    columns: int,
    rows: int,
    flat_width: int,
    done_x: int,
    done_y: int,
    index: int,
) -> bool {
    exists|x: int, y: int, source: int|
        tile_before(x, y, done_x, done_y) && #[trigger] is_tile_cell(
            tiles,
            columns,
            rows,
            flat_width,
            x,
            y,
            index,
            source,
        )
}

/// The cell is a clone of a default value.
pub open spec fn is_default_cell<T: Default + Clone>(cell: T) -> bool {
    exists|value: T| #[trigger] call_ensures(T::default, (), value) && cloned(value, cell)
}

/// The cells hold the grids that come before the one in column `done_x` of
/// row `done_y`, each in its part, and clones of a default value
/// everywhere else.
pub open spec fn is_flattened_upto<T: Default + Clone>(
    tiles: Seq<Grid<T>>,
    columns: int,
    rows: int,
    flat_width: int,
    cells: Seq<T>,
    done_x: int,
    done_y: int,
) -> bool {
    &&& forall|x: int, y: int, index: int, source: int|
        tile_before(x, y, done_x, done_y) && index < cells.len() && #[trigger] is_tile_cell(
            tiles,
            columns,
            rows,
            flat_width,
            x,
            y,
            index,
            source,
        ) ==> cloned(tiles[linear_index(columns, x, y)]@[source], cells[index])
    &&& forall|index: int|
        0 <= index < cells.len() && !is_covered(
            tiles,
            columns,
            rows,
            flat_width,
            done_x,
            done_y,
            index,
        ) ==> is_default_cell(#[trigger] cells[index])
}

/// A cell lies in the part of at most one grid of the grid of grids.
pub proof fn lemma_one_tile<T>(
    tiles: Seq<Grid<T>>,
    columns: int,
    rows: int,
    flat_width: int,
    index: int,
    x1: int,
    y1: int,
    source1: int,
    x2: int,
    y2: int,
    source2: int,
)
    requires
        is_tile_cell(tiles, columns, rows, flat_width, x1, y1, index, source1),
        is_tile_cell(tiles, columns, rows, flat_width, x2, y2, index, source2),
    ensures
        x1 == x2,
        y1 == y2,
        source1 == source2,
{
    if x1 < x2 {
        lemma_starts_grow(tiles, columns, rows, x1, x2);
        lemma_tile_fits(tiles, columns, rows, x1, y1);
    }
    if x2 < x1 {
        lemma_starts_grow(tiles, columns, rows, x2, x1);
        lemma_tile_fits(tiles, columns, rows, x2, y2);
    }
    if y1 < y2 {
        lemma_starts_grow(tiles, columns, rows, y1, y2);
        lemma_tile_fits(tiles, columns, rows, x1, y1);
    }
    if y2 < y1 {
        lemma_starts_grow(tiles, columns, rows, y2, y1);
        lemma_tile_fits(tiles, columns, rows, x2, y2);
    }
}

/// Laying the grid in column `x` of row `y` down on cells that hold the
/// grids before it gives cells that hold the grids before the next one.
pub proof fn lemma_lay_tile<T: Default + Clone>(
    tiles: Seq<Grid<T>>,
    columns: int,
    rows: int,
    flat_width: int,
    flat_height: int,
    before: Seq<T>,
    after: Seq<T>,
    x: int,
    y: int,
)
    requires
        0 <= x < columns,
        0 <= y < rows,
        flat_width > 0,
        before.len() == flat_width * flat_height,
        is_flattened_upto(tiles, columns, rows, flat_width, before, x, y),
        is_overlay(
            before,
            after,
            flat_width,
            tiles[linear_index(columns, x, y)]@,
            tiles[linear_index(columns, x, y)].width as int,
            tiles[linear_index(columns, x, y)].height as int,
            column_start(tiles, columns, rows, x) as int,
            row_start(tiles, columns, y) as int,
        ),
    ensures
        is_flattened_upto(tiles, columns, rows, flat_width, after, x + 1, y),
{
    let tile = tiles[linear_index(columns, x, y)];
    let left = column_start(tiles, columns, rows, x) as int;
    let top = row_start(tiles, columns, y) as int;
    assert forall|tx: int, ty: int, index: int, source: int|
        tile_before(tx, ty, x + 1, y) && index < after.len() && #[trigger] is_tile_cell(
            tiles,
            columns,
            rows,
            flat_width,
            tx,
            ty,
            index,
            source,
        ) implies cloned(tiles[linear_index(columns, tx, ty)]@[source], after[index]) by {
        assert(overlay_cell(
            before,
            after,
            flat_width,
            tile@,
            tile.width as int,
            tile.height as int,
            left,
            top,
            index,
        ));
        if tx == x && ty == y {
        } else {
            if overlay_source(flat_width, tile.width as int, tile.height as int, left, top, index) is Some {
                let other = overlay_source(
                    flat_width,
                    tile.width as int,
                    tile.height as int,
                    left,
                    top,
                    index,
                )->Some_0;
                assert(is_tile_cell(tiles, columns, rows, flat_width, x, y, index, other));
                lemma_one_tile(tiles, columns, rows, flat_width, index, x, y, other, tx, ty, source);
            }
        }
    }
    assert forall|index: int|
        0 <= index < after.len() && !is_covered(
            tiles,
            columns,
            rows,
            flat_width,
            x + 1,
            y,
            index,
        ) implies is_default_cell(#[trigger] after[index]) by {
        assert(overlay_cell(
            before,
            after,
            flat_width,
            tile@,
            tile.width as int,
            tile.height as int,
            left,
            top,
            index,
        ));
        if overlay_source(flat_width, tile.width as int, tile.height as int, left, top, index) is Some {
            let other = overlay_source(
                flat_width,
                tile.width as int,
                tile.height as int,
                left,
                top,
                index,
            )->Some_0;
            assert(is_tile_cell(tiles, columns, rows, flat_width, x, y, index, other));
            assert(tile_before(x, y, x + 1, y));
        } else {
            if is_covered(tiles, columns, rows, flat_width, x, y, index) {
                let (tx, ty, source) = choose|tx: int, ty: int, source: int|
                    tile_before(tx, ty, x, y) && #[trigger] is_tile_cell(
                        tiles,
                        columns,
                        rows,
                        flat_width,
                        tx,
                        ty,
                        index,
                        source,
                    );
                assert(tile_before(tx, ty, x + 1, y));
            }
            assert(is_default_cell(before[index]));
        }
    }
}

/// Cells that hold the grids before an empty grid hold the grids before
/// the next one, and cells that hold the grids of a row hold the grids
/// before the first one of the next row.
pub proof fn lemma_skip_tile<T: Default + Clone>(
    tiles: Seq<Grid<T>>,
    columns: int,
    rows: int,
    flat_width: int,
    cells: Seq<T>,
    x: int,
    y: int,
)
    requires
        is_flattened_upto(tiles, columns, rows, flat_width, cells, x, y),
        x >= columns || tiles[linear_index(columns, x, y)].width == 0 || tiles[linear_index(
            columns,
            x,
            y,
        )].height == 0,
    ensures
        x < columns ==> is_flattened_upto(tiles, columns, rows, flat_width, cells, x + 1, y),
        x >= columns ==> is_flattened_upto(tiles, columns, rows, flat_width, cells, 0, y + 1),
{
    let (next_x, next_y) = if x < columns {
        (x + 1, y)
    } else {
        (0int, y + 1)
    };
    assert forall|tx: int, ty: int, index: int, source: int|
        tile_before(tx, ty, next_x, next_y) && index < cells.len() && #[trigger] is_tile_cell(
            tiles,
            columns,
            rows,
            flat_width,
            tx,
            ty,
            index,
            source,
        ) implies cloned(tiles[linear_index(columns, tx, ty)]@[source], cells[index]) by {
        assert(tile_before(tx, ty, x, y));
    }
    assert forall|index: int|
        0 <= index < cells.len() && !is_covered(
            tiles,
            columns,
            rows,
            flat_width,
            next_x,
            next_y,
            index,
        ) implies is_default_cell(#[trigger] cells[index]) by {
        if is_covered(tiles, columns, rows, flat_width, x, y, index) {
            let (tx, ty, source) = choose|tx: int, ty: int, source: int|
                tile_before(tx, ty, x, y) && #[trigger] is_tile_cell(
                    tiles,
                    columns,
                    rows,
                    flat_width,
                    tx,
                    ty,
                    index,
                    source,
                );
            assert(tile_before(tx, ty, next_x, next_y));
        }
    }
}


/// A list of the given length with every cell a clone of the value.
fn filled_with<T: Clone>(value: T, len: usize) -> (cells: Vec<T>)
    ensures
        cells@.len() == len,
        forall|i: int| 0 <= i < len ==> cloned(value, #[trigger] cells@[i]),
{
    let mut cells: Vec<T> = Vec::with_capacity(len);
    let mut filled: usize = 0;
    while filled < len
        invariant
            filled <= len,
            cells@.len() == filled,
            forall|i: int| 0 <= i < filled ==> cloned(value, #[trigger] cells@[i]),
        decreases len - filled,
    {
        cells.push(value.clone());
        filled += 1;
    }
    cells
}

impl<T: Default + Clone> Grid<Grid<T>> {
    /// Every grid of the grid of grids is well-formed, and the flattened
    /// grid is not larger than a grid can be.
    pub open spec fn flattenable(&self) -> bool {
        &&& self.wf()
        &&& forall|i: int| 0 <= i < self@.len() ==> (#[trigger] self@[i]).wf()
        &&& column_start(self@, self.width as int, self.height as int, self.width as int)
            <= usize::MAX
        &&& row_start(self@, self.width as int, self.height as int) <= usize::MAX
        &&& column_start(self@, self.width as int, self.height as int, self.width as int)
            * row_start(self@, self.width as int, self.height as int) <= usize::MAX
    }

    /// The width of each column of the flattened grid: that of the widest
    /// grid of the column.
    fn column_widths(&self) -> (widths: Vec<usize>)
        requires
            self.wf(),
        ensures
            widths@.len() == self.width,
            forall|x: int|
                0 <= x < self.width ==> #[trigger] widths@[x] == column_width_upto(
                    self@,
                    self.width as int,
                    x,
                    self.height as int,
                ),
    {
        assert(self.data.len() == self@.len());
        let mut widths: Vec<usize> = Vec::with_capacity(self.width);
        let mut x: usize = 0;
        while x < self.width
            invariant
                self.wf(),
                self@.len() <= usize::MAX,
                x <= self.width,
                widths@.len() == x,
                forall|cx: int|
                    0 <= cx < x ==> #[trigger] widths@[cx] == column_width_upto(
                        self@,
                        self.width as int,
                        cx,
                        self.height as int,
                    ),
            decreases self.width - x,
        {
            let mut widest: usize = 0;
            let mut y: usize = 0;
            while y < self.height
                invariant
                    self.wf(),
                    self@.len() <= usize::MAX,
                    x < self.width,
                    y <= self.height,
                    widest == column_width_upto(self@, self.width as int, x as int, y as int),
                decreases self.height - y,
            {
                proof {
                    lemma_index_round_trip(self.width as int, self.height as int, x as int, y as int);
                }
                let width: usize = self.data[y * self.width + x].width;
                if width > widest {
                    widest = width;
                }
                y += 1;
            }
            widths.push(widest);
            x += 1;
        }
        widths
    }

    /// The height of each row of the flattened grid: that of the highest
    /// grid of the row.
    fn row_heights(&self) -> (heights: Vec<usize>)
        requires
            self.wf(),
        ensures
            heights@.len() == self.height,
            forall|y: int|
                0 <= y < self.height ==> #[trigger] heights@[y] == row_height_upto(
                    self@,
                    self.width as int,
                    y,
                    self.width as int,
                ),
    {
        assert(self.data.len() == self@.len());
        let mut heights: Vec<usize> = Vec::with_capacity(self.height);
        let mut y: usize = 0;
        while y < self.height
            invariant
                self.wf(),
                self@.len() <= usize::MAX,
                y <= self.height,
                heights@.len() == y,
                forall|cy: int|
                    0 <= cy < y ==> #[trigger] heights@[cy] == row_height_upto(
                        self@,
                        self.width as int,
                        cy,
                        self.width as int,
                    ),
            decreases self.height - y,
        {
            let mut highest: usize = 0;
            let mut x: usize = 0;
            while x < self.width
                invariant
                    self.wf(),
                    self@.len() <= usize::MAX,
                    y < self.height,
                    x <= self.width,
                    highest == row_height_upto(self@, self.width as int, y as int, x as int),
                decreases self.width - x,
            {
                proof {
                    lemma_index_round_trip(self.width as int, self.height as int, x as int, y as int);
                }
                let height: usize = self.data[y * self.width + x].height;
                if height > highest {
                    highest = height;
                }
                x += 1;
            }
            heights.push(highest);
            y += 1;
        }
        heights
    }

    /// Flattens a grid of grids into one grid. Acts a lot like a CSS grid:
    /// every column is as wide as its widest grid, every row as high as its
    /// highest grid, each grid lies in the top left corner of its place,
    /// and what is left of the place holds the default value.
    pub fn flatten_grid(&self) -> (flattened: Grid<T>)
        requires
            self.flattenable(),
        ensures
            flattened.wf(),
            flattened.width == column_start(
                self@,
                self.width as int,
                self.height as int,
                self.width as int,
            ),
            flattened.height == row_start(self@, self.width as int, self.height as int),
            is_flattened_upto(
                self@,
                self.width as int,
                self.height as int,
                flattened.width as int,
                flattened@,
                0,
                self.height as int,
            ),
    {
        let ghost tiles = self@;
        let ghost columns = self.width as int;
        let ghost rows = self.height as int;
        assert(self.data.len() == self@.len());
        let col_widths: Vec<usize> = self.column_widths();
        let row_heights: Vec<usize> = self.row_heights();

        let mut flattened_width: usize = 0;
        let mut x: usize = 0;
        while x < self.width
            invariant
                x <= self.width,
                columns == self.width,
                rows == self.height,
                tiles == self@,
                col_widths@.len() == self.width,
                forall|cx: int|
                    0 <= cx < self.width ==> #[trigger] col_widths@[cx] == column_width_upto(
                        tiles,
                        columns,
                        cx,
                        rows,
                    ),
                column_start(tiles, columns, rows, columns) <= usize::MAX,
                flattened_width == column_start(tiles, columns, rows, x as int),
            decreases self.width - x,
        {
            proof {
                if x + 1 < columns {
                    lemma_starts_grow(tiles, columns, rows, x as int, columns);
                }
            }
            flattened_width += col_widths[x];
            x += 1;
        }
        let mut flattened_height: usize = 0;
        let mut y: usize = 0;
        while y < self.height
            invariant
                y <= self.height,
                columns == self.width,
                rows == self.height,
                tiles == self@,
                row_heights@.len() == self.height,
                forall|cy: int|
                    0 <= cy < self.height ==> #[trigger] row_heights@[cy] == row_height_upto(
                        tiles,
                        columns,
                        cy,
                        columns,
                    ),
                row_start(tiles, columns, rows) <= usize::MAX,
                flattened_height == row_start(tiles, columns, y as int),
            decreases self.height - y,
        {
            proof {
                if y + 1 < rows {
                    lemma_starts_grow(tiles, columns, rows, y as int, rows);
                }
            }
            flattened_height += row_heights[y];
            y += 1;
        }

        let cells: Vec<T> = filled_with(T::default(), flattened_width * flattened_height);
        let mut flattened: Grid<T> = Grid::new(cells, flattened_width, flattened_height);
        proof {
            assert forall|index: int| 0 <= index < flattened@.len() implies is_default_cell(
                #[trigger] flattened@[index],
            ) by {}
        }
        let mut cursor_y: usize = 0;
        let mut y: usize = 0;
        while y < self.height
            invariant
                self.flattenable(),
                columns == self.width,
                rows == self.height,
                tiles == self@,
                tiles.len() <= usize::MAX,
                y <= self.height,
                col_widths@.len() == self.width,
                row_heights@.len() == self.height,
                forall|cx: int|
                    0 <= cx < self.width ==> #[trigger] col_widths@[cx] == column_width_upto(
                        tiles,
                        columns,
                        cx,
                        rows,
                    ),
                forall|cy: int|
                    0 <= cy < self.height ==> #[trigger] row_heights@[cy] == row_height_upto(
                        tiles,
                        columns,
                        cy,
                        columns,
                    ),
                flattened.wf(),
                flattened.width == flattened_width,
                flattened.height == flattened_height,
                flattened_width == column_start(tiles, columns, rows, columns),
                flattened_height == row_start(tiles, columns, rows),
                cursor_y == row_start(tiles, columns, y as int),
                is_flattened_upto(tiles, columns, rows, flattened_width as int, flattened@, 0, y as int),
            decreases self.height - y,
        {
            let mut cursor_x: usize = 0;
            let mut x: usize = 0;
            while x < self.width
                invariant
                    self.flattenable(),
                    columns == self.width,
                    rows == self.height,
                    tiles == self@,
                    tiles.len() <= usize::MAX,
                    y < self.height,
                    x <= self.width,
                    col_widths@.len() == self.width,
                    forall|cx: int|
                        0 <= cx < self.width ==> #[trigger] col_widths@[cx] == column_width_upto(
                            tiles,
                            columns,
                            cx,
                            rows,
                        ),
                    flattened.wf(),
                    flattened.width == flattened_width,
                    flattened.height == flattened_height,
                    flattened_width == column_start(tiles, columns, rows, columns),
                    flattened_height == row_start(tiles, columns, rows),
                    cursor_x == column_start(tiles, columns, rows, x as int),
                    cursor_y == row_start(tiles, columns, y as int),
                    is_flattened_upto(
                        tiles,
                        columns,
                        rows,
                        flattened_width as int,
                        flattened@,
                        x as int,
                        y as int,
                    ),
                decreases self.width - x,
            {
                proof {
                    lemma_index_round_trip(columns, rows, x as int, y as int);
                    lemma_tile_fits(tiles, columns, rows, x as int, y as int);
                    if x + 1 < columns {
                        lemma_starts_grow(tiles, columns, rows, x as int, columns);
                    }
                    if y + 1 < rows {
                        lemma_starts_grow(tiles, columns, rows, y as int, rows);
                    }
                }
                let tile: &Grid<T> = &self.data[y * self.width + x];
                if tile.width > 0 && tile.height > 0 {
                    proof {
                        lemma_index_round_trip(
                            flattened_width as int,
                            flattened_height as int,
                            cursor_x as int,
                            cursor_y as int,
                        );
                    }
                    let ghost before = flattened@;
                    flattened.append_at(tile, [cursor_x, cursor_y]);
                    proof {
                        lemma_lay_tile(
                            tiles,
                            columns,
                            rows,
                            flattened_width as int,
                            flattened_height as int,
                            before,
                            flattened@,
                            x as int,
                            y as int,
                        );
                    }
                } else {
                    proof {
                        lemma_skip_tile(
                            tiles,
                            columns,
                            rows,
                            flattened_width as int,
                            flattened@,
                            x as int,
                            y as int,
                        );
                    }
                }
                cursor_x += col_widths[x];
                x += 1;
            }
            proof {
                lemma_skip_tile(
                    tiles,
                    columns,
                    rows,
                    flattened_width as int,
                    flattened@,
                    x as int,
                    y as int,
                );
                if y + 1 < rows {
                    lemma_starts_grow(tiles, columns, rows, y as int, rows);
                }
            }
            cursor_y += row_heights[y];
            y += 1;
        }
        flattened
    }
}

} // verus!
