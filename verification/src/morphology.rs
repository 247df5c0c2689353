use vstd::prelude::*;
use crate::indexer::coordinate_of;
use crate::indexer::is_neighbor;
use crate::indexer::lemma_coordinate_round_trip;
use crate::indexer::lemma_index_round_trip;
use crate::region::eroded;
use crate::region::eroded_times;
use crate::region::is_boundary;
use crate::region::on_border;

verus! {

/// The cells of a grid of which those in the columns from `left` up to
/// `right` and the rows from `top` up to `bottom` are set.
pub open spec fn rectangle(
    width: int,
    height: int,
    left: int,
    top: int,
    right: int,
    bottom: int,
) -> Seq<bool> {
    Seq::new(
        (width * height) as nat,
        |i: int|
            left <= coordinate_of(width, i).0 < right && top <= coordinate_of(width, i).1 < bottom,
    )
}

/// The cells next to a cell lie one column to the left or right of it in
/// the same row, or one row above or below it in the same column.
pub proof fn lemma_neighbor_coordinates(width: int, height: int, index: int, neighbor: int)
    requires
        0 < width,
        0 <= height,
        is_neighbor(width, width * height, index, neighbor),
    ensures
        ({
            let (x, y) = coordinate_of(width, index);
            let (nx, ny) = coordinate_of(width, neighbor);
            ||| (nx == x - 1 && ny == y)
            ||| (nx == x + 1 && ny == y)
            ||| (nx == x && ny == y - 1)
            ||| (nx == x && ny == y + 1)
        }),
{
    lemma_coordinate_round_trip(width, height, index);
    lemma_coordinate_round_trip(width, height, neighbor);
    let (x, y) = coordinate_of(width, index);
    if neighbor == index - 1 && index % width > 0 {
        lemma_index_round_trip(width, height, x - 1, y);
    } else if neighbor == index + 1 && index % width != width - 1 {
        lemma_index_round_trip(width, height, x + 1, y);
    } else if neighbor == index - width {
        assert(y > 0) by (nonlinear_arith)
            requires
                index == y * width + x,
                0 <= x < width,
                index - width >= 0,
                0 <= y,
        ;
        lemma_index_round_trip(width, height, x, y - 1);
        assert((y - 1) * width + x == index - width) by (nonlinear_arith)
            requires
                index == y * width + x,
        ;
    } else {
        assert(y + 1 < height) by (nonlinear_arith)
            requires
                index == y * width + x,
                0 <= x < width,
                index + width < width * height,
                0 <= y,
                0 < width,
        ;
        lemma_index_round_trip(width, height, x, y + 1);
        assert((y + 1) * width + x == index + width) by (nonlinear_arith)
            requires
                index == y * width + x,
        ;
    }
}

/// Taking the edge off a rectangle leaves the rectangle that is one cell
/// smaller on each side.
pub proof fn lemma_erode_rectangle(
    width: int,
    height: int,
    left: int,
    top: int,
    right: int,
    bottom: int,
)
    requires
        0 < width,
        0 <= height,
        0 <= left,
        right <= width,
        0 <= top,
        bottom <= height,
    ensures
        eroded(rectangle(width, height, left, top, right, bottom), width, height) == rectangle(
            width,
            height,
            left + 1,
            top + 1,
            right - 1,
            bottom - 1,
        ),
{
    let cells = rectangle(width, height, left, top, right, bottom);
    let smaller = rectangle(width, height, left + 1, top + 1, right - 1, bottom - 1);
    let len = width * height;
    assert(width * height >= 0) by (nonlinear_arith)
        requires
            0 < width,
            0 <= height,
    ;
    assert(cells.len() == len);
    assert forall|i: int| 0 <= i < len implies eroded(cells, width, height)[i] == smaller[i] by {
        lemma_coordinate_round_trip(width, height, i);
        let (x, y) = coordinate_of(width, i);
        if cells[i] {
            if smaller[i] {
                assert(!on_border(width, height, i));
                assert forall|n: int| #[trigger] is_neighbor(width, len, i, n) implies cells[n] by {
                    lemma_neighbor_coordinates(width, height, i, n);
                }
                assert(!is_boundary(cells, width, height, i));
            } else {
                if x == left && left > 0 {
                    lemma_index_round_trip(width, height, x - 1, y);
                    assert(is_neighbor(width, len, i, i - 1));
                    assert(!cells[i - 1]);
                } else if x == right - 1 && right < width {
                    lemma_index_round_trip(width, height, x + 1, y);
                    assert(is_neighbor(width, len, i, i + 1));
                    assert(!cells[i + 1]);
                } else if y == top && top > 0 {
                    lemma_index_round_trip(width, height, x, y - 1);
                    assert((y - 1) * width + x == i - width) by (nonlinear_arith)
                        requires
                            i == y * width + x,
                    ;
                    assert(is_neighbor(width, len, i, i - width));
                    assert(!cells[i - width]);
                } else if y == bottom - 1 && bottom < height {
                    lemma_index_round_trip(width, height, x, y + 1);
                    assert((y + 1) * width + x == i + width) by (nonlinear_arith)
                        requires
                            i == y * width + x,
                    ;
                    assert(is_neighbor(width, len, i, i + width));
                    assert(!cells[i + width]);
                } else {
                    assert(on_border(width, height, i));
                }
                assert(is_boundary(cells, width, height, i));
            }
        }
    }
    assert(eroded(cells, width, height) =~= smaller);
}

/// Taking the edge off a rectangle `layers` times leaves the rectangle that
/// is `layers` cells smaller on each side: of a solid square of 25 by 25
/// cells five layers leave the inner square of 15 by 15 cells.
pub proof fn lemma_erode_rectangle_times(
    width: int,
    height: int,
    left: int,
    top: int,
    right: int,
    bottom: int,
    layers: nat,
)
    requires
        0 < width,
        0 <= height,
        0 <= left,
        right <= width,
        0 <= top,
        bottom <= height,
    ensures
        eroded_times(rectangle(width, height, left, top, right, bottom), width, height, layers)
            == rectangle(
            width,
            height,
            left + layers,
            top + layers,
            right - layers,
            bottom - layers,
        ),
    decreases layers,
{
    if layers > 0 {
        lemma_erode_rectangle_times(width, height, left, top, right, bottom, (layers - 1) as nat);
        lemma_erode_rectangle(
            width,
            height,
            left + layers - 1,
            top + layers - 1,
            right - layers + 1,
            bottom - layers + 1,
        );
    }
}

} // verus!
