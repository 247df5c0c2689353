use vstd::prelude::*;
use crate::counting::count_true;
use crate::counting::lemma_count_fewer;
use crate::counting::lemma_count_no_more;
use crate::counting::lemma_first_set;
use crate::grid::Grid;
use crate::indexer::GridIndexer;
use crate::indexer::coordinate_of;
use crate::indexer::is_neighbor;
use crate::indexer::lemma_coordinate_round_trip;
use crate::indexer::lemma_index_round_trip;
use crate::indexer::linear_index;

verus! {

/// The cell lies inside the box given as X, Y, width and height.
pub open spec fn in_box(width: int, bounds: [usize; 4], index: int) -> bool {
    let (x, y) = coordinate_of(width, index);
    bounds[0] <= x < bounds[0] + bounds[2] && bounds[1] <= y < bounds[1] + bounds[3]
}

/// None of the cells is set.
pub open spec fn all_clear(cells: Seq<bool>) -> bool {
    forall|i: int| 0 <= i < cells.len() ==> !cells[i]
}

/// The box lies inside the grid and every set cell lies inside the box.
pub open spec fn box_covers(cells: Seq<bool>, width: int, height: int, bounds: [usize; 4]) -> bool {
    &&& bounds[0] + bounds[2] <= width
    &&& bounds[1] + bounds[3] <= height
    &&& forall|i: int| 0 <= i < cells.len() && #[trigger] cells[i] ==> in_box(width, bounds, i)
}

/// A set cell lies in the given column.
pub open spec fn column_touched(cells: Seq<bool>, width: int, x: int) -> bool {
    exists|i: int| 0 <= i < cells.len() && #[trigger] cells[i] && coordinate_of(width, i).0 == x
}

/// A set cell lies in the given row.
pub open spec fn row_touched(cells: Seq<bool>, width: int, y: int) -> bool {
    exists|i: int| 0 <= i < cells.len() && #[trigger] cells[i] && coordinate_of(width, i).1 == y
}

/// The box is the smallest one that holds every set cell; without a set
/// cell it is all zero.
pub open spec fn is_bounding_box(cells: Seq<bool>, width: int, height: int, bounds: [usize; 4]) -> bool {
    if all_clear(cells) {
        bounds[0] == 0 && bounds[1] == 0 && bounds[2] == 0 && bounds[3] == 0
    } else {
        &&& box_covers(cells, width, height, bounds)
        &&& column_touched(cells, width, bounds[0] as int)
        &&& column_touched(cells, width, bounds[0] + bounds[2] - 1)
        &&& row_touched(cells, width, bounds[1] as int)
        &&& row_touched(cells, width, bounds[1] + bounds[3] - 1)
    }
}

/// A cell comes before a position in the row-major order exactly when its
/// index is smaller than that of the position.
pub proof fn lemma_scan_order(width: int, index: int, x0: int, y0: int)
    requires
        0 < width,
        0 <= index,
        0 <= x0 <= width,
        0 <= y0,
    ensures
        index < linear_index(width, x0, y0) <==> (coordinate_of(width, index).1 < y0 || (
        coordinate_of(width, index).1 == y0 && coordinate_of(width, index).0 < x0)),
{
    vstd::arithmetic::div_mod::lemma_fundamental_div_mod(index, width);
    vstd::arithmetic::div_mod::lemma_mod_bound(index, width);
    let x = index % width;
    let y = index / width;
    assert(index == y * width + x) by (nonlinear_arith)
        requires
            index == width * y + x,
    ;
    if y < y0 {
        assert(y * width + width <= y0 * width) by (nonlinear_arith)
            requires
                y < y0,
                width > 0,
        ;
    } else if y > y0 {
        assert(y0 * width + width <= y * width) by (nonlinear_arith)
            requires
                y0 < y,
                width > 0,
        ;
    }
}

/// A part of a grid: for each cell whether it belongs to the region, and
/// the smallest box that holds all cells of the region.
#[derive(Debug)]
pub struct GridRegion {
    pub grid: Grid<bool>,
    pub bounds: [usize; 4],
}

impl GridRegion {
    /// The grid is well-formed and the bounds are its bounding box.
    pub open spec fn wf(&self) -> bool {
        &&& self.grid.wf()
        &&& is_bounding_box(
            self.grid@,
            self.grid.width as int,
            self.grid.height as int,
            self.bounds,
        )
    }

    /// The grid is well-formed and no cell of the region lies outside the
    /// bounds, which may be wider than needed.
    pub open spec fn covered(&self) -> bool {
        &&& self.grid.wf()
        &&& box_covers(self.grid@, self.grid.width as int, self.grid.height as int, self.bounds)
    }

    /// Create a new GridRegion.
    pub fn new(grid: Grid<bool>) -> (region: GridRegion)
        requires
            grid.wf(),
        ensures
            region.grid == grid,
            region.wf(),
    {
        let mut region: GridRegion = GridRegion { grid, bounds: [0, 0, 0, 0] };
        region.update_bounds();
        region
    }

    /// Update the bounds of the region.
    pub fn update_bounds(&mut self)
        requires
            old(self).grid.wf(),
        ensures
            final(self).grid == old(self).grid,
            final(self).wf(),
    {
        let width: usize = self.grid.width;
        let len: usize = self.grid.data.len();
        let ghost height = self.grid.height as int;
        let ghost cells = self.grid@;
        let mut found: bool = false;
        let mut start_x: usize = 0;
        let mut start_y: usize = 0;
        let mut end_x: usize = 0;
        let mut end_y: usize = 0;
        let mut index: usize = 0;
        while index < len
            invariant
                self.grid == old(self).grid,
                self.grid.wf(),
                cells == self.grid@,
                width == self.grid.width,
                height == self.grid.height,
                len == cells.len(),
                index <= len,
                !found ==> forall|i: int| 0 <= i < index ==> !cells[i],
                found ==> {
                    &&& start_x <= end_x < width
                    &&& start_y <= end_y < height
                    &&& forall|i: int|
                        0 <= i < index && #[trigger] cells[i] ==> start_x <= coordinate_of(
                            width as int,
                            i,
                        ).0 <= end_x && start_y <= coordinate_of(width as int, i).1 <= end_y
                    &&& column_touched(cells, width as int, start_x as int)
                    &&& column_touched(cells, width as int, end_x as int)
                    &&& row_touched(cells, width as int, start_y as int)
                    &&& row_touched(cells, width as int, end_y as int)
                },
            decreases len - index,
        {
            if self.grid.data[index] {
                assert(width > 0) by (nonlinear_arith)
                    requires
                        width * height > 0,
                ;
                proof {
                    lemma_coordinate_round_trip(width as int, height, index as int);
                }
                let x: usize = index % width;
                let y: usize = index / width;
                assert(cells[index as int] && coordinate_of(width as int, index as int) == (
                    x as int,
                    y as int,
                ));
                if !found {
                    found = true;
                    start_x = x;
                    end_x = x;
                    start_y = y;
                    end_y = y;
                } else {
                    if x < start_x {
                        start_x = x;
                    }
                    if x > end_x {
                        end_x = x;
                    }
                    if y < start_y {
                        start_y = y;
                    }
                    if y > end_y {
                        end_y = y;
                    }
                }
            }
            index += 1;
        }
        if found {
            self.bounds = [start_x, start_y, end_x - start_x + 1, end_y - start_y + 1];
            proof {
                let witness = choose|i: int|
                    0 <= i < cells.len() && #[trigger] cells[i] && coordinate_of(width as int, i).0
                        == start_x;
                assert(!all_clear(cells));
            }
        } else {
            self.bounds = [0, 0, 0, 0];
        }
    }

    /// Get the grid of the region.
    pub fn grid(&self) -> (grid: &Grid<bool>)
        ensures
            grid == &self.grid,
    {
        &self.grid
    }

    /// Get the positive indexes of the region, in ascending order.
    pub fn indexes(&self) -> (indexes: Vec<usize>)
        requires
            self.covered(),
        ensures
            forall|k: int| 0 <= k < indexes@.len() ==> (#[trigger] indexes@[k]) < self.grid@.len()
                && self.grid@[indexes@[k] as int],
            forall|j: int, k: int|
                0 <= j < k < indexes@.len() ==> (#[trigger] indexes@[j]) < (#[trigger] indexes@[k]),
            forall|i: int|
                0 <= i < self.grid@.len() && #[trigger] self.grid@[i] ==> indexes@.contains(i as usize),
    {
        let ghost cells = self.grid@;
        let width: usize = self.grid.width;
        let ghost height = self.grid.height as int;
        let mut indexes: Vec<usize> = Vec::new();
        assert(self.grid.data.len() == cells.len());
        if self.bounds[2] == 0 || self.bounds[3] == 0 {
            assert forall|i: int| 0 <= i < cells.len() implies !#[trigger] cells[i] by {
                if cells[i] {
                    assert(in_box(width as int, self.bounds, i));
                }
            }
            return indexes;
        }
        let end_x: usize = self.bounds[0] + self.bounds[2];
        let end_y: usize = self.bounds[1] + self.bounds[3];
        let mut y: usize = self.bounds[1];
        proof {
            lemma_index_round_trip(width as int, height, self.bounds[0] as int, y as int);
            assert forall|i: int|
                0 <= i < linear_index(width as int, self.bounds[0] as int, y as int)
                    && #[trigger] cells[i] implies indexes@.contains(i as usize) by {
                lemma_coordinate_round_trip(width as int, height, i);
                lemma_scan_order(width as int, i, self.bounds[0] as int, y as int);
                assert(in_box(width as int, self.bounds, i));
            }
        }
        while y < end_y
            invariant
                self.covered(),
                cells == self.grid@,
                cells.len() <= usize::MAX,
                width == self.grid.width,
                height == self.grid.height,
                end_x == self.bounds[0] + self.bounds[2],
                end_y == self.bounds[1] + self.bounds[3],
                self.bounds[0] < end_x,
                self.bounds[1] <= y <= end_y,
                forall|k: int|
                    0 <= k < indexes@.len() ==> (#[trigger] indexes@[k]) < cells.len()
                        && cells[indexes@[k] as int] && indexes@[k] < linear_index(
                        width as int,
                        self.bounds[0] as int,
                        y as int,
                    ),
                forall|j: int, k: int|
                    0 <= j < k < indexes@.len() ==> (#[trigger] indexes@[j]) < (
                    #[trigger] indexes@[k]),
                forall|i: int|
                    0 <= i < cells.len() && i < linear_index(
                        width as int,
                        self.bounds[0] as int,
                        y as int,
                    ) && #[trigger] cells[i] ==> indexes@.contains(i as usize),
            decreases end_y - y,
        {
            let mut x: usize = self.bounds[0];
            proof {
                lemma_index_round_trip(width as int, height, x as int, y as int);
            }
            let y_index: usize = y * width;
            while x < end_x
                invariant
                    self.covered(),
                    cells == self.grid@,
                    cells.len() <= usize::MAX,
                    width == self.grid.width,
                    height == self.grid.height,
                    end_x == self.bounds[0] + self.bounds[2],
                    end_y == self.bounds[1] + self.bounds[3],
                    self.bounds[1] <= y < end_y,
                    self.bounds[0] <= x <= end_x,
                    y_index == y * width,
                    forall|k: int|
                        0 <= k < indexes@.len() ==> (#[trigger] indexes@[k]) < cells.len()
                            && cells[indexes@[k] as int] && indexes@[k] < y_index + x,
                    forall|j: int, k: int|
                        0 <= j < k < indexes@.len() ==> (#[trigger] indexes@[j]) < (
                        #[trigger] indexes@[k]),
                    forall|i: int|
                        0 <= i < cells.len() && i < y_index + x && #[trigger] cells[i]
                            ==> indexes@.contains(i as usize),
                decreases end_x - x,
            {
                proof {
                    lemma_index_round_trip(width as int, height, x as int, y as int);
                }
                let index: usize = y_index + x;
                if self.grid.data[index] {
                    let ghost before = indexes@;
                    indexes.push(index);
                    proof {
                        assert forall|i: int|
                            0 <= i < cells.len() && i < y_index + x + 1
                                && #[trigger] cells[i] implies indexes@.contains(i as usize) by {
                            if i < index {
                                assert(before.contains(i as usize));
                                let k = choose|k: int| 0 <= k < before.len() && before[k] == i as usize;
                                assert(indexes@[k] == i as usize);
                            } else {
                                assert(indexes@[before.len() as int] == index);
                            }
                        }
                    }
                }
                x += 1;
            }
            proof {
                assert((y + 1) * width == y * width + width) by (nonlinear_arith);
                assert forall|i: int|
                    0 <= i < cells.len() && i < linear_index(
                        width as int,
                        self.bounds[0] as int,
                        y + 1,
                    ) && #[trigger] cells[i] implies indexes@.contains(i as usize) by {
                    if i >= y_index + end_x {
                        lemma_coordinate_round_trip(width as int, height, i);
                        lemma_scan_order(width as int, i, end_x as int, y as int);
                        lemma_scan_order(width as int, i, self.bounds[0] as int, y + 1);
                        assert(in_box(width as int, self.bounds, i));
                    }
                }
            }
            y += 1;
        }
        proof {
            assert forall|i: int| 0 <= i < cells.len() && #[trigger] cells[i] implies indexes@.contains(
                i as usize,
            ) by {
                lemma_coordinate_round_trip(width as int, height, i);
                lemma_scan_order(width as int, i, self.bounds[0] as int, end_y as int);
                assert(in_box(width as int, self.bounds, i));
            }
        }
        indexes
    }

    /// Get a sub-grid of the bounds.
    pub fn bounds_sub_grid(&self) -> (sub: Grid<&bool>)
        requires
            self.covered(),
        ensures
            sub.wf(),
            sub.width == self.bounds[2],
            sub.height == self.bounds[3],
            forall|x: int, y: int|
                0 <= x < sub.width && 0 <= y < sub.height ==> *(#[trigger] sub@[linear_index(
                    sub.width as int,
                    x,
                    y,
                )]) == self.grid@[linear_index(
                    self.grid.width as int,
                    self.bounds[0] + x,
                    self.bounds[1] + y,
                )],
    {
        self.grid.sub_grid(self.bounds)
    }
}


/// The cell lies in the first or last column or row of the grid.
pub open spec fn on_border(width: int, height: int, index: int) -> bool {
    let (x, y) = coordinate_of(width, index);
    x == 0 || y == 0 || x == width - 1 || y == height - 1
}

/// A set cell together with what makes it a cell of the region's edge: a
/// clear cell next to it, or nothing where the cell lies on the border of
/// the grid.
#[derive(Debug, Clone, Copy)]
pub struct EdgeIndex {
    pub positive_index: usize,
    pub negative_index: Option<usize>,
}

/// The pair names a set cell and either a clear cell next to it or, with
/// `None`, the border of the grid that the set cell lies on.
pub open spec fn is_edge_pair(
    cells: Seq<bool>,
    width: int,
    height: int,
    positive: int,
    negative: Option<usize>,
) -> bool {
    &&& 0 <= positive < cells.len()
    &&& cells[positive]
    &&& match negative {
        Some(n) => is_neighbor(width, cells.len() as int, positive, n as int) && !cells[n as int],
        None => on_border(width, height, positive),
    }
}

/// The list holds the pair.
#[verifier::opaque]
pub open spec fn has_edge(edges: Seq<EdgeIndex>, positive: int, negative: Option<usize>) -> bool {
    exists|k: int|
        0 <= k < edges.len() && (#[trigger] edges[k]).positive_index == positive
            && edges[k].negative_index == negative
}

/// The list holds a pair with the given set cell.
#[verifier::opaque]
pub open spec fn has_positive(edges: Seq<EdgeIndex>, positive: int) -> bool {
    exists|k: int| 0 <= k < edges.len() && (#[trigger] edges[k]).positive_index == positive
}

/// The list holds a pair with the given clear cell.
#[verifier::opaque]
pub open spec fn has_negative(edges: Seq<EdgeIndex>, negative: int) -> bool {
    exists|k: int|
        0 <= k < edges.len() && (#[trigger] edges[k]).negative_index == Some(negative as usize)
}

/// The list holds edge pairs only, and every edge pair whose set cell comes
/// before `limit`.
pub open spec fn edges_upto(
    cells: Seq<bool>,
    width: int,
    height: int,
    edges: Seq<EdgeIndex>,
    limit: int,
) -> bool {
    &&& forall|k: int|
        0 <= k < edges.len() ==> is_edge_pair(
            cells,
            width,
            height,
            (#[trigger] edges[k]).positive_index as int,
            edges[k].negative_index,
        )
    &&& forall|p: int, n: Option<usize>|
        p < limit && #[trigger] is_edge_pair(cells, width, height, p, n) ==> has_edge(edges, p, n)
}

/// The set cell belongs to the edge of the region: it lies on the border of
/// the grid or next to a clear cell.
pub open spec fn is_boundary(cells: Seq<bool>, width: int, height: int, index: int) -> bool {
    &&& cells[index]
    &&& (on_border(width, height, index) || exists|n: int|
        #[trigger] is_neighbor(width, cells.len() as int, index, n) && !cells[n])
}

/// The clear cell lies next to a set cell.
pub open spec fn is_fringe(cells: Seq<bool>, width: int, index: int) -> bool {
    &&& !cells[index]
    &&& exists|p: int| #[trigger] is_neighbor(width, cells.len() as int, p, index) && cells[p]
}

/// The region without the cells of its edge.
pub open spec fn eroded(cells: Seq<bool>, width: int, height: int) -> Seq<bool> {
    Seq::new(cells.len(), |i: int| cells[i] && !is_boundary(cells, width, height, i))
}

/// The region together with the clear cells next to it.
pub open spec fn dilated(cells: Seq<bool>, width: int) -> Seq<bool> {
    Seq::new(cells.len(), |i: int| cells[i] || is_fringe(cells, width, i))
}

/// The region after its edge was taken off `layers` times.
pub open spec fn eroded_times(cells: Seq<bool>, width: int, height: int, layers: nat) -> Seq<bool>
    decreases layers,
{
    if layers == 0 {
        cells
    } else {
        eroded(eroded_times(cells, width, height, (layers - 1) as nat), width, height)
    }
}

/// The region after the cells next to it were added `layers` times.
pub open spec fn dilated_times(cells: Seq<bool>, width: int, layers: nat) -> Seq<bool>
    decreases layers,
{
    if layers == 0 {
        cells
    } else {
        dilated(dilated_times(cells, width, (layers - 1) as nat), width)
    }
}

/// Adding a pair to a list keeps the pairs it held and holds the new one.
pub proof fn lemma_push_edge(edges: Seq<EdgeIndex>, edge: EdgeIndex)
    ensures
        has_edge(edges.push(edge), edge.positive_index as int, edge.negative_index),
        forall|p: int, n: Option<usize>| #[trigger]
            has_edge(edges, p, n) ==> has_edge(edges.push(edge), p, n),
{
    reveal(has_edge);
    let pushed = edges.push(edge);
    assert(pushed[edges.len() as int] == edge);
    assert forall|p: int, n: Option<usize>| #[trigger] has_edge(edges, p, n) implies has_edge(
        pushed,
        p,
        n,
    ) by {
        let k = choose|k: int|
            0 <= k < edges.len() && (#[trigger] edges[k]).positive_index == p
                && edges[k].negative_index == n;
        assert(pushed[k] == edges[k]);
    }
}

impl GridRegion {
    /// Find the edges of the region: every set cell that lies next to a
    /// clear cell, with that cell, and every set cell on the border of the
    /// grid.
    pub fn find_edges(&self) -> (edges: Vec<EdgeIndex>)
        requires
            self.covered(),
        ensures
            edges_upto(
                self.grid@,
                self.grid.width as int,
                self.grid.height as int,
                edges@,
                self.grid@.len() as int,
            ),
    {
        let ghost cells = self.grid@;
        let width: usize = self.grid.width;
        let height: usize = self.grid.height;
        let mut edges: Vec<EdgeIndex> = Vec::new();
        assert(self.grid.data.len() == cells.len());
        if self.bounds[2] == 0 || self.bounds[3] == 0 {
            assert forall|i: int| 0 <= i < cells.len() implies !#[trigger] cells[i] by {
                if cells[i] {
                    assert(in_box(width as int, self.bounds, i));
                }
            }
            return edges;
        }
        let end_x: usize = self.bounds[0] + self.bounds[2];
        let end_y: usize = self.bounds[1] + self.bounds[3];
        let mut y: usize = self.bounds[1];
        proof {
            lemma_index_round_trip(width as int, height as int, self.bounds[0] as int, y as int);
            assert forall|p: int, n: Option<usize>|
                p < linear_index(width as int, self.bounds[0] as int, y as int)
                    && #[trigger] is_edge_pair(cells, width as int, height as int, p, n) implies has_edge(
                edges@,
                p,
                n,
            ) by {
                lemma_coordinate_round_trip(width as int, height as int, p);
                lemma_scan_order(width as int, p, self.bounds[0] as int, y as int);
                assert(in_box(width as int, self.bounds, p));
            }
        }
        while y < end_y
            invariant
                self.covered(),
                cells == self.grid@,
                cells.len() <= usize::MAX,
                width == self.grid.width,
                height == self.grid.height,
                end_x == self.bounds[0] + self.bounds[2],
                end_y == self.bounds[1] + self.bounds[3],
                self.bounds[0] < end_x,
                self.bounds[1] <= y <= end_y,
                edges_upto(
                    cells,
                    width as int,
                    height as int,
                    edges@,
                    linear_index(width as int, self.bounds[0] as int, y as int),
                ),
            decreases end_y - y,
        {
            let mut x: usize = self.bounds[0];
            proof {
                lemma_index_round_trip(width as int, height as int, x as int, y as int);
            }
            let y_index: usize = y * width;
            while x < end_x
                invariant
                    self.covered(),
                    cells == self.grid@,
                    cells.len() <= usize::MAX,
                    width == self.grid.width,
                    height == self.grid.height,
                    end_x == self.bounds[0] + self.bounds[2],
                    end_y == self.bounds[1] + self.bounds[3],
                    self.bounds[1] <= y < end_y,
                    self.bounds[0] <= x <= end_x,
                    y_index == y * width,
                    edges_upto(cells, width as int, height as int, edges@, y_index + x),
                decreases end_x - x,
            {
                proof {
                    lemma_index_round_trip(width as int, height as int, x as int, y as int);
                }
                let index: usize = y_index + x;
                proof {
                    assert(y > 0 ==> y * width >= width) by (nonlinear_arith);
                    assert(y == 0 ==> y * width == 0) by (nonlinear_arith);
                    assert(y == height - 1 ==> y * width + width == width * height)
                        by (nonlinear_arith);
                }
                if self.grid.data[index] {
                    let ghost before = edges@;
                    if x == 0 {
                        proof {
                            lemma_push_edge(edges@, EdgeIndex { positive_index: index, negative_index: None });
                        }
                        edges.push(EdgeIndex { positive_index: index, negative_index: None });
                    } else if !self.grid.data[index - 1] {
                        proof {
                            lemma_push_edge(
                                edges@,
                                EdgeIndex { positive_index: index, negative_index: Some((index - 1) as usize) },
                            );
                        }
                        edges.push(EdgeIndex { positive_index: index, negative_index: Some(index - 1) });
                    }
                    if y == 0 {
                        proof {
                            lemma_push_edge(edges@, EdgeIndex { positive_index: index, negative_index: None });
                        }
                        edges.push(EdgeIndex { positive_index: index, negative_index: None });
                    } else if !self.grid.data[index - width] {
                        proof {
                            lemma_push_edge(
                                edges@,
                                EdgeIndex {
                                    positive_index: index,
                                    negative_index: Some((index - width) as usize),
                                },
                            );
                        }
                        edges.push(EdgeIndex { positive_index: index, negative_index: Some(index - width) });
                    }
                    if x == width - 1 {
                        proof {
                            lemma_push_edge(edges@, EdgeIndex { positive_index: index, negative_index: None });
                        }
                        edges.push(EdgeIndex { positive_index: index, negative_index: None });
                    } else {
                        proof {
                            lemma_index_round_trip(width as int, height as int, x + 1, y as int);
                        }
                        if !self.grid.data[index + 1] {
                            proof {
                                lemma_push_edge(
                                    edges@,
                                    EdgeIndex {
                                        positive_index: index,
                                        negative_index: Some((index + 1) as usize),
                                    },
                                );
                            }
                            edges.push(EdgeIndex { positive_index: index, negative_index: Some(index + 1) });
                        }
                    }
                    if y == height - 1 {
                        proof {
                            lemma_push_edge(edges@, EdgeIndex { positive_index: index, negative_index: None });
                        }
                        edges.push(EdgeIndex { positive_index: index, negative_index: None });
                    } else {
                        proof {
                            lemma_index_round_trip(width as int, height as int, x as int, y + 1);
                            assert((y + 1) * width == y * width + width) by (nonlinear_arith);
                        }
                        if !self.grid.data[index + width] {
                            proof {
                                lemma_push_edge(
                                    edges@,
                                    EdgeIndex {
                                        positive_index: index,
                                        negative_index: Some((index + width) as usize),
                                    },
                                );
                            }
                            edges.push(
                                EdgeIndex { positive_index: index, negative_index: Some(index + width) },
                            );
                        }
                    }
                    proof {
                        assert forall|p: int, n: Option<usize>|
                            p < y_index + x + 1 && #[trigger] is_edge_pair(
                                cells,
                                width as int,
                                height as int,
                                p,
                                n,
                            ) implies has_edge(edges@, p, n) by {
                            if p < index {
                                assert(has_edge(before, p, n));
                            } else {
                                match n {
                                    Some(cell) => {
                                        assert(is_neighbor(
                                            width as int,
                                            cells.len() as int,
                                            p,
                                            cell as int,
                                        ));
                                    },
                                    None => {},
                                }
                            }
                        }
                    }
                }
                x += 1;
            }
            proof {
                assert((y + 1) * width == y * width + width) by (nonlinear_arith);
                assert forall|p: int, n: Option<usize>|
                    p < linear_index(width as int, self.bounds[0] as int, y + 1)
                        && #[trigger] is_edge_pair(
                        cells,
                        width as int,
                        height as int,
                        p,
                        n,
                    ) implies has_edge(edges@, p, n) by {
                    if p >= y_index + end_x {
                        lemma_coordinate_round_trip(width as int, height as int, p);
                        lemma_scan_order(width as int, p, end_x as int, y as int);
                        lemma_scan_order(width as int, p, self.bounds[0] as int, y + 1);
                        assert(in_box(width as int, self.bounds, p));
                    }
                }
            }
            y += 1;
        }
        proof {
            assert forall|p: int, n: Option<usize>|
                p < cells.len() && #[trigger] is_edge_pair(
                    cells,
                    width as int,
                    height as int,
                    p,
                    n,
                ) implies has_edge(edges@, p, n) by {
                lemma_coordinate_round_trip(width as int, height as int, p);
                lemma_scan_order(width as int, p, self.bounds[0] as int, end_y as int);
                assert(in_box(width as int, self.bounds, p));
            }
        }
        edges
    }
}


/// A list that is one pair longer holds the set and clear cells of the
/// shorter list and those of the added pair.
pub proof fn lemma_take_edge(edges: Seq<EdgeIndex>, k: int)
    requires
        0 <= k < edges.len(),
    ensures
        forall|i: int|
            has_positive(edges.take(k + 1), i) <==> #[trigger] has_positive(edges.take(k), i)
                || edges[k].positive_index == i,
        forall|i: int|
            0 <= i <= usize::MAX ==> (has_negative(edges.take(k + 1), i) <==> #[trigger] has_negative(
                edges.take(k),
                i,
            ) || edges[k].negative_index == Some(i as usize)),
        forall|i: int| !#[trigger] has_positive(edges.take(0), i),
        forall|i: int| !#[trigger] has_negative(edges.take(0), i),
        edges.take(edges.len() as int) == edges,
{
    reveal(has_positive);
    reveal(has_negative);
    let short = edges.take(k);
    let long = edges.take(k + 1);
    assert(long[k] == edges[k]);
    assert forall|i: int|
        has_positive(long, i) <==> #[trigger] has_positive(short, i) || edges[k].positive_index
            == i by {
        if has_positive(long, i) {
            let j = choose|j: int| 0 <= j < long.len() && (#[trigger] long[j]).positive_index == i;
            if j < k {
                assert(short[j] == long[j]);
            }
        }
        if has_positive(short, i) {
            let j = choose|j: int| 0 <= j < short.len() && (#[trigger] short[j]).positive_index == i;
            assert(long[j] == short[j]);
        }
    }
    assert forall|i: int| 0 <= i <= usize::MAX implies (has_negative(long, i) <==> #[trigger] has_negative(
        short,
        i,
    ) || edges[k].negative_index == Some(i as usize)) by {
        if has_negative(long, i) {
            let j = choose|j: int|
                0 <= j < long.len() && (#[trigger] long[j]).negative_index == Some(i as usize);
            if j < k {
                assert(short[j] == long[j]);
            }
        }
        if has_negative(short, i) {
            let j = choose|j: int|
                0 <= j < short.len() && (#[trigger] short[j]).negative_index == Some(i as usize);
            assert(long[j] == short[j]);
        }
    }
}

/// The set cells that a complete list of edges names are the cells of the
/// region's edge, the clear cells it names are the cells next to the
/// region.
pub proof fn lemma_edges_mark(cells: Seq<bool>, width: int, height: int, edges: Seq<EdgeIndex>)
    requires
        edges_upto(cells, width, height, edges, cells.len() as int),
        cells.len() <= usize::MAX,
    ensures
        forall|i: int|
            0 <= i < cells.len() ==> (#[trigger] has_positive(edges, i) <==> is_boundary(
                cells,
                width,
                height,
                i,
            )),
        forall|i: int|
            0 <= i < cells.len() ==> (#[trigger] has_negative(edges, i) <==> is_fringe(cells, width, i)),
        forall|k: int| 0 <= k < edges.len() ==> (#[trigger] edges[k]).positive_index < cells.len(),
        forall|k: int|
            0 <= k < edges.len() ==> ((#[trigger] edges[k]).negative_index matches Some(n) ==> n
                < cells.len()),
{
    reveal(has_positive);
    reveal(has_negative);
    reveal(has_edge);
    assert forall|i: int| 0 <= i < cells.len() implies (#[trigger] has_positive(edges, i)
        <==> is_boundary(cells, width, height, i)) by {
        if has_positive(edges, i) {
            let k = choose|k: int| 0 <= k < edges.len() && (#[trigger] edges[k]).positive_index == i;
            assert(is_edge_pair(cells, width, height, i, edges[k].negative_index));
            match edges[k].negative_index {
                Some(n) => {
                    assert(is_neighbor(width, cells.len() as int, i, n as int));
                },
                None => {},
            }
        }
        if is_boundary(cells, width, height, i) {
            if on_border(width, height, i) {
                assert(is_edge_pair(cells, width, height, i, None));
                assert(has_edge(edges, i, None));
            } else {
                let n = choose|n: int|
                    #[trigger] is_neighbor(width, cells.len() as int, i, n) && !cells[n];
                assert(is_edge_pair(cells, width, height, i, Some(n as usize)));
                assert(has_edge(edges, i, Some(n as usize)));
            }
        }
    }
    assert forall|i: int| 0 <= i < cells.len() implies (#[trigger] has_negative(edges, i)
        <==> is_fringe(cells, width, i)) by {
        if has_negative(edges, i) {
            let k = choose|k: int|
                0 <= k < edges.len() && (#[trigger] edges[k]).negative_index == Some(i as usize);
            assert(is_edge_pair(
                cells,
                width,
                height,
                edges[k].positive_index as int,
                edges[k].negative_index,
            ));
            assert(is_neighbor(width, cells.len() as int, edges[k].positive_index as int, i));
        }
        if is_fringe(cells, width, i) {
            let p = choose|p: int| #[trigger] is_neighbor(width, cells.len() as int, p, i) && cells[p];
            assert(is_edge_pair(cells, width, height, p, Some(i as usize)));
            assert(has_edge(edges, p, Some(i as usize)));
        }
    }
    assert forall|k: int| 0 <= k < edges.len() implies (#[trigger] edges[k]).positive_index
        < cells.len() && (edges[k].negative_index matches Some(n) ==> n < cells.len()) by {
        assert(is_edge_pair(
            cells,
            width,
            height,
            edges[k].positive_index as int,
            edges[k].negative_index,
        ));
    }
}

impl GridRegion {
    /// Clear every set cell that the list of edges names.
    fn clear_edges(&mut self, edges: &Vec<EdgeIndex>)
        requires
            forall|k: int|
                0 <= k < edges@.len() ==> (#[trigger] edges@[k]).positive_index < old(self).grid@.len(),
        ensures
            final(self).grid.width == old(self).grid.width,
            final(self).grid.height == old(self).grid.height,
            final(self).bounds == old(self).bounds,
            final(self).grid@.len() == old(self).grid@.len(),
            forall|i: int|
                0 <= i < old(self).grid@.len() ==> #[trigger] final(self).grid@[i] == (old(
                    self,
                ).grid@[i] && !has_positive(edges@, i)),
    {
        let ghost before = self.grid@;
        let mut index: usize = 0;
        proof {
            if edges@.len() > 0 {
                lemma_take_edge(edges@, 0);
            } else {
                reveal(has_positive);
            }
        }
        while index < edges.len()
            invariant
                index <= edges@.len(),
                self.grid.width == old(self).grid.width,
                self.grid.height == old(self).grid.height,
                self.bounds == old(self).bounds,
                self.grid@.len() == before.len(),
                before == old(self).grid@,
                forall|k: int|
                    0 <= k < edges@.len() ==> (#[trigger] edges@[k]).positive_index < before.len(),
                forall|i: int|
                    0 <= i < before.len() ==> #[trigger] self.grid@[i] == (before[i] && !has_positive(
                        edges@.take(index as int),
                        i,
                    )),
            decreases edges@.len() - index,
        {
            proof {
                lemma_take_edge(edges@, index as int);
            }
            let positive: usize = edges[index].positive_index;
            self.grid.data[positive] = false;
            index += 1;
        }
        proof {
            assert(edges@.take(edges@.len() as int) == edges@);
        }
    }

    /// Set every clear cell that the list of edges names.
    fn fill_edges(&mut self, edges: &Vec<EdgeIndex>)
        requires
            forall|k: int|
                0 <= k < edges@.len() ==> ((#[trigger] edges@[k]).negative_index matches Some(n) ==> n
                    < old(self).grid@.len()),
        ensures
            final(self).grid.width == old(self).grid.width,
            final(self).grid.height == old(self).grid.height,
            final(self).bounds == old(self).bounds,
            final(self).grid@.len() == old(self).grid@.len(),
            forall|i: int|
                0 <= i < old(self).grid@.len() ==> #[trigger] final(self).grid@[i] == (old(
                    self,
                ).grid@[i] || has_negative(edges@, i)),
    {
        let ghost before = self.grid@;
        let mut index: usize = 0;
        assert(self.grid.data.len() == before.len());
        proof {
            if edges@.len() > 0 {
                lemma_take_edge(edges@, 0);
            } else {
                reveal(has_negative);
            }
        }
        while index < edges.len()
            invariant
                index <= edges@.len(),
                self.grid.width == old(self).grid.width,
                self.grid.height == old(self).grid.height,
                self.bounds == old(self).bounds,
                self.grid@.len() == before.len(),
                before.len() <= usize::MAX,
                before == old(self).grid@,
                forall|k: int|
                    0 <= k < edges@.len() ==> ((#[trigger] edges@[k]).negative_index matches Some(n)
                        ==> n < before.len()),
                forall|i: int|
                    0 <= i < before.len() ==> #[trigger] self.grid@[i] == (before[i] || has_negative(
                        edges@.take(index as int),
                        i,
                    )),
            decreases edges@.len() - index,
        {
            proof {
                lemma_take_edge(edges@, index as int);
            }
            match edges[index].negative_index {
                Some(negative) => {
                    self.grid.data[negative] = true;
                },
                None => {},
            }
            index += 1;
        }
        proof {
            assert(edges@.take(edges@.len() as int) == edges@);
        }
    }

    /// Clear every set cell that the list of edges names and write the
    /// distance down for it.
    fn record_edges(&mut self, edges: &Vec<EdgeIndex>, distances: &mut Vec<usize>, distance: usize)
        requires
            old(distances)@.len() == old(self).grid@.len(),
            forall|k: int|
                0 <= k < edges@.len() ==> (#[trigger] edges@[k]).positive_index < old(self).grid@.len(),
        ensures
            final(self).grid.width == old(self).grid.width,
            final(self).grid.height == old(self).grid.height,
            final(self).bounds == old(self).bounds,
            final(self).grid@.len() == old(self).grid@.len(),
            final(distances)@.len() == old(distances)@.len(),
            forall|i: int|
                0 <= i < old(self).grid@.len() ==> #[trigger] final(self).grid@[i] == (old(
                    self,
                ).grid@[i] && !has_positive(edges@, i)),
            forall|i: int|
                0 <= i < old(self).grid@.len() ==> #[trigger] final(distances)@[i] == if has_positive(
                    edges@,
                    i,
                ) {
                    distance
                } else {
                    old(distances)@[i]
                },
    {
        let ghost before = self.grid@;
        let ghost distances_before = distances@;
        let mut index: usize = 0;
        proof {
            if edges@.len() > 0 {
                lemma_take_edge(edges@, 0);
            } else {
                reveal(has_positive);
            }
        }
        while index < edges.len()
            invariant
                index <= edges@.len(),
                self.grid.width == old(self).grid.width,
                self.grid.height == old(self).grid.height,
                self.bounds == old(self).bounds,
                self.grid@.len() == before.len(),
                distances@.len() == before.len(),
                before == old(self).grid@,
                distances_before == old(distances)@,
                forall|k: int|
                    0 <= k < edges@.len() ==> (#[trigger] edges@[k]).positive_index < before.len(),
                forall|i: int|
                    0 <= i < before.len() ==> #[trigger] self.grid@[i] == (before[i] && !has_positive(
                        edges@.take(index as int),
                        i,
                    )),
                forall|i: int|
                    0 <= i < before.len() ==> #[trigger] distances@[i] == if has_positive(
                        edges@.take(index as int),
                        i,
                    ) {
                        distance
                    } else {
                        distances_before[i]
                    },
            decreases edges@.len() - index,
        {
            proof {
                lemma_take_edge(edges@, index as int);
            }
            let positive: usize = edges[index].positive_index;
            self.grid.data[positive] = false;
            distances[positive] = distance;
            index += 1;
        }
        proof {
            assert(edges@.take(edges@.len() as int) == edges@);
        }
    }

    /// Take the edge off the region once. The bounds stay as they are and
    /// still hold the region.
    fn remove_layer(&mut self) -> (changed: bool)
        requires
            old(self).covered(),
        ensures
            final(self).covered(),
            final(self).grid.width == old(self).grid.width,
            final(self).grid.height == old(self).grid.height,
            final(self).bounds == old(self).bounds,
            final(self).grid@ == eroded(
                old(self).grid@,
                old(self).grid.width as int,
                old(self).grid.height as int,
            ),
            changed <==> final(self).grid@ != old(self).grid@,
    {
        let edges: Vec<EdgeIndex> = self.find_edges();
        let ghost before = self.grid@;
        proof {
            assert(self.grid.data.len() == before.len());
            lemma_edges_mark(before, self.grid.width as int, self.grid.height as int, edges@);
        }
        self.clear_edges(&edges);
        proof {
            assert(self.grid@ =~= eroded(before, self.grid.width as int, self.grid.height as int));
            if edges.len() > 0 {
                let p = edges@[0].positive_index as int;
                reveal(has_positive);
                assert(has_positive(edges@, p));
                assert(before[p] && !self.grid@[p]);
            } else {
                reveal(has_positive);
                assert(self.grid@ =~= before);
            }
        }
        edges.len() > 0
    }

    /// Remove a specific width of edges.
    pub fn remove_edge(&mut self, removal_width: usize)
        requires
            old(self).wf(),
        ensures
            final(self).wf(),
            final(self).grid.width == old(self).grid.width,
            final(self).grid.height == old(self).grid.height,
            final(self).grid@ == eroded_times(
                old(self).grid@,
                old(self).grid.width as int,
                old(self).grid.height as int,
                removal_width as nat,
            ),
    {
        let ghost before = self.grid@;
        let mut layer: usize = 0;
        while layer < removal_width
            invariant
                layer <= removal_width,
                self.covered(),
                self.grid.width == old(self).grid.width,
                self.grid.height == old(self).grid.height,
                before == old(self).grid@,
                self.grid@ == eroded_times(
                    before,
                    self.grid.width as int,
                    self.grid.height as int,
                    layer as nat,
                ),
            decreases removal_width - layer,
        {
            self.remove_layer();
            layer += 1;
        }
        self.update_bounds();
    }

    /// Add a specific width of edges.
    pub fn add_edge(&mut self, addition_width: usize)
        requires
            old(self).wf(),
        ensures
            final(self).wf(),
            final(self).grid.width == old(self).grid.width,
            final(self).grid.height == old(self).grid.height,
            final(self).grid@ == dilated_times(
                old(self).grid@,
                old(self).grid.width as int,
                addition_width as nat,
            ),
    {
        let ghost before = self.grid@;
        let mut layer: usize = 0;
        while layer < addition_width
            invariant
                layer <= addition_width,
                self.wf(),
                self.grid.width == old(self).grid.width,
                self.grid.height == old(self).grid.height,
                before == old(self).grid@,
                self.grid@ == dilated_times(before, self.grid.width as int, layer as nat),
            decreases addition_width - layer,
        {
            let ghost cells = self.grid@;
            let edges: Vec<EdgeIndex> = self.find_edges();
            proof {
                assert(self.grid.data.len() == cells.len());
                lemma_edges_mark(cells, self.grid.width as int, self.grid.height as int, edges@);
            }
            self.fill_edges(&edges);
            proof {
                assert(self.grid@ =~= dilated(cells, self.grid.width as int));
            }
            self.update_bounds();
            layer += 1;
        }
    }
}


/// `distance` tells in which round of taking the edge off the cell leaves
/// the region: 0 for a cell that never was in it, 1 for a cell of the
/// region's edge, 2 for a cell of the edge of what is left then, and so on.
pub open spec fn is_edge_distance(
    cells: Seq<bool>,
    width: int,
    height: int,
    index: int,
    distance: nat,
) -> bool {
    if distance == 0 {
        !cells[index]
    } else {
        &&& eroded_times(cells, width, height, (distance - 1) as nat)[index]
        &&& !eroded_times(cells, width, height, distance)[index]
    }
}

/// A region with a cell has a cell on its edge.
pub proof fn lemma_has_boundary(cells: Seq<bool>, width: int, height: int) -> (index: int)
    requires
        cells.len() == width * height,
        0 <= height,
        !all_clear(cells),
    ensures
        0 <= index < cells.len(),
        is_boundary(cells, width, height, index),
{
    let first = lemma_first_set(cells);
    assert(width > 0) by (nonlinear_arith)
        requires
            width * height > 0,
            0 <= height,
    ;
    lemma_coordinate_round_trip(width, height, first);
    if first % width > 0 {
        assert(is_neighbor(width, cells.len() as int, first, first - 1));
    }
    first
}

impl GridRegion {
    /// Map the region to values indicating their distance to the nearest edge.
    pub fn to_edge_distance_map(self) -> (edge_map: Grid<usize>)
        requires
            self.wf(),
        ensures
            edge_map.wf(),
            edge_map.width == self.grid.width,
            edge_map.height == self.grid.height,
            forall|i: int|
                0 <= i < self.grid@.len() ==> is_edge_distance(
                    self.grid@,
                    self.grid.width as int,
                    self.grid.height as int,
                    i,
                    #[trigger] edge_map@[i] as nat,
                ),
    {
        let ghost initial = self.grid@;
        let width: usize = self.grid.width;
        let height: usize = self.grid.height;
        let mut region: GridRegion = self;
        assert(region.grid.data.len() == initial.len());
        let mut distances: Vec<usize> = Vec::new();
        let mut filled: usize = 0;
        while filled < region.grid.data.len()
            invariant
                filled <= region.grid@.len(),
                distances@.len() == filled,
                forall|i: int| 0 <= i < filled ==> distances@[i] == 0,
            decreases region.grid@.len() - filled,
        {
            distances.push(0);
            filled += 1;
        }
        let mut distance: usize = 0;
        proof {
            lemma_count_no_more(initial, initial);
        }
        loop
            invariant
                region.covered(),
                region.grid.width == width,
                region.grid.height == height,
                initial.len() == width * height,
                initial.len() <= usize::MAX,
                region.grid@ == eroded_times(initial, width as int, height as int, distance as nat),
                distances@.len() == initial.len(),
                distance + count_true(region.grid@) <= initial.len(),
                forall|i: int|
                    0 <= i < initial.len() && !region.grid@[i] ==> is_edge_distance(
                        initial,
                        width as int,
                        height as int,
                        i,
                        #[trigger] distances@[i] as nat,
                    ),
            ensures
                distances@.len() == initial.len(),
                forall|i: int|
                    0 <= i < initial.len() ==> is_edge_distance(
                        initial,
                        width as int,
                        height as int,
                        i,
                        #[trigger] distances@[i] as nat,
                    ),
            decreases count_true(region.grid@),
        {
            let ghost layer = region.grid@;
            let edges: Vec<EdgeIndex> = region.find_edges();
            proof {
                lemma_edges_mark(layer, width as int, height as int, edges@);
            }
            if edges.len() == 0 {
                proof {
                    reveal(has_positive);
                    if !all_clear(layer) {
                        let index = lemma_has_boundary(layer, width as int, height as int);
                        assert(has_positive(edges@, index));
                    }
                }
                break ;
            }
            proof {
                reveal(has_positive);
                let p = edges@[0].positive_index as int;
                assert(has_positive(edges@, p));
                assert(is_boundary(layer, width as int, height as int, p));
                let next = eroded(layer, width as int, height as int);
                lemma_count_fewer(layer, next, p);
            }
            distance += 1;
            region.record_edges(&edges, &mut distances, distance);
            proof {
                assert(region.grid@ =~= eroded(layer, width as int, height as int));
                assert forall|i: int| 0 <= i < initial.len() && !region.grid@[i] implies is_edge_distance(
                    initial,
                    width as int,
                    height as int,
                    i,
                    #[trigger] distances@[i] as nat,
                ) by {
                    if has_positive(edges@, i) {
                        assert(is_boundary(layer, width as int, height as int, i));
                    }
                }
            }
        }
        proof {
            assert(distances@.len() == width * height);
        }
        Grid::new(distances, width, height)
    }
}


impl<U: GridIndexer> vstd::std_specs::core::IndexSpecImpl<U> for GridRegion {
    open spec fn index_req(&self, index: &U) -> bool {
        0 <= index.grid_index(self.grid.width as int) < self.grid@.len()
    }
}

impl<U: GridIndexer> std::ops::Index<U> for GridRegion {
    type Output = bool;

    /// Whether the cell that the indexer names belongs to the region.
    fn index(&self, indexer: U) -> (cell: &bool)
        ensures
            *cell == self.grid@[indexer.grid_index(self.grid.width as int)],
    {
        assert(self.grid.data.len() == self.grid@.len());
        &self.grid.data[indexer.to_grid_index(&self.grid)]
    }
}

} // verus!
