use std::ops::Add;
use std::ops::BitAnd;
use std::ops::BitOr;
use std::ops::BitXor;
use std::ops::Div;
use std::ops::Mul;
use std::ops::Shl;
use std::ops::Shr;
use std::ops::Sub;
use vstd::prelude::*;
use vstd::std_specs::ops::AddSpec;
use vstd::std_specs::ops::AddSpecImpl;
use vstd::std_specs::ops::BitAndSpec;
use vstd::std_specs::ops::BitAndSpecImpl;
use vstd::std_specs::ops::BitOrSpec;
use vstd::std_specs::ops::BitOrSpecImpl;
use vstd::std_specs::ops::BitXorSpec;
use vstd::std_specs::ops::BitXorSpecImpl;
use vstd::std_specs::ops::DivSpec;
use vstd::std_specs::ops::DivSpecImpl;
use vstd::std_specs::ops::MulSpec;
use vstd::std_specs::ops::MulSpecImpl;
use vstd::std_specs::ops::ShlSpec;
use vstd::std_specs::ops::ShlSpecImpl;
use vstd::std_specs::ops::ShrSpec;
use vstd::std_specs::ops::ShrSpecImpl;
use vstd::std_specs::ops::SubSpec;
use vstd::std_specs::ops::SubSpecImpl;
use crate::grid::Grid;
use crate::indexer::coordinate_of;
use crate::indexer::lemma_coordinate_round_trip;
use crate::indexer::lemma_index_round_trip;
use crate::indexer::linear_index;

verus! {

/// The cell of the right grid that is combined with the cell `index` of the
/// left grid, if the cell lies where the two grids overlap when their top
/// left corners are put together.
pub open spec fn overlap_source(left_width: int, right_width: int, right_height: int, index: int) -> Option<
    int,
> {
    let (x, y) = coordinate_of(left_width, index);
    if x < right_width && y < right_height {
        Some(linear_index(right_width, x, y))
    } else {
        None
    }
}

/// The operation may be called on a clone of every cell of the left grid
/// that lies in the overlap and a clone of the cell of the right grid that
/// lies on it.
pub open spec fn combine_ready<T: Clone, F: Fn(T, T) -> T>(
    left: &Grid<T>,
    right: &Grid<T>,
    operation: F,
) -> bool {
    forall|i: int, j: int, a: T, b: T|
        0 <= i < left@.len() && overlap_source(
            left.width as int,
            right.width as int,
            right.height as int,
            i,
        ) == Some(j) && #[trigger] cloned(left@[i], a) && #[trigger] cloned(right@[j], b)
            ==> call_requires(operation, (a, b))
}

/// `after` is what the operation gave for a clone of `left` and a clone of
/// `right`.
pub open spec fn operated<T: Clone, F: Fn(T, T) -> T>(left: T, right: T, operation: F, after: T) -> bool {
    exists|a: T, b: T|
        cloned(left, a) && cloned(right, b) && #[trigger] call_ensures(operation, (a, b), after)
}

/// The cell `index` of `after` is what the operation gave for a clone of the
/// cell of `before` and a clone of the cell of the right grid that lies on
/// it, or the cell of `before` itself outside the overlap.
pub open spec fn combined_cell<T: Clone, F: Fn(T, T) -> T>(
    before: Seq<T>,
    after: Seq<T>,
    width: int,
    right: &Grid<T>,
    rows: int,
    operation: F,
    index: int,
) -> bool {
    match overlap_source(width, right.width as int, rows, index) {
        Some(source) => operated(before[index], right@[source], operation, after[index]),
        None => after[index] == before[index],
    }
}

/// What `combine_ready` says of one pair of cells.
pub proof fn lemma_combine_ready<T: Clone, F: Fn(T, T) -> T>(
    left: &Grid<T>,
    right: &Grid<T>,
    operation: F,
    i: int,
    j: int,
    a: T,
    b: T,
)
    requires
        combine_ready(left, right, operation),
        0 <= i < left@.len(),
        overlap_source(left.width as int, right.width as int, right.height as int, i) == Some(j),
        cloned(left@[i], a),
        cloned(right@[j], b),
    ensures
        call_requires(operation, (a, b)),
{
}

impl<T: Clone> Grid<T> {
    /// Combine each cell of self that lies in the overlap with another grid
    /// with the cell of that grid, and leave the other cells as they are.
    /// The overlap is what the two grids share when their top left corners
    /// are put together.
    pub fn combine_with<F: Fn(T, T) -> T>(&mut self, modification: &Grid<T>, operation: F)
        requires
            old(self).wf(),
            modification.wf(),
            combine_ready(old(self), modification, operation),
        ensures
            final(self).width == old(self).width,
            final(self).height == old(self).height,
            final(self)@.len() == old(self)@.len(),
            forall|i: int|
                0 <= i < old(self)@.len() ==> #[trigger] combined_cell(
                    old(self)@,
                    final(self)@,
                    old(self).width as int,
                    modification,
                    modification.height as int,
                    operation,
                    i,
                ),
    {
        let width: usize = self.width;
        let ghost height = self.height as int;
        let ghost before = self@;
        assert(self.data.len() == self@.len());
        assert(modification.data.len() == modification@.len());
        let overlap_height: usize = if self.height < modification.height {
            self.height
        } else {
            modification.height
        };
        let overlap_width: usize = if self.width < modification.width {
            self.width
        } else {
            modification.width
        };
        if overlap_width == 0 || overlap_height == 0 {
            proof {
                assert forall|i: int| 0 <= i < before.len() implies #[trigger] combined_cell(
                    before,
                    self@,
                    width as int,
                    modification,
                    modification.height as int,
                    operation,
                    i,
                ) by {
                    assert(width > 0) by (nonlinear_arith)
                        requires
                            width * height > 0,
                    ;
                    lemma_coordinate_round_trip(width as int, height, i);
                }
            }
            return ;
        }
        let mut y: usize = 0;
        while y < overlap_height
            invariant
                self.width == width,
                self.height == height,
                old(self).width == width,
                width > 0,
                self@.len() == before.len(),
                before == old(self)@,
                before.len() == width * height,
                before.len() <= usize::MAX,
                modification.wf(),
                modification@.len() <= usize::MAX,
                y <= overlap_height,
                overlap_height <= height,
                overlap_height <= modification.height,
                0 < overlap_width <= width,
                overlap_width <= modification.width,
                overlap_width == width || overlap_width == modification.width,
                combine_ready(old(self), modification, operation),
                forall|i: int|
                    0 <= i < before.len() ==> #[trigger] combined_cell(
                        before,
                        self@,
                        width as int,
                        modification,
                        y as int,
                        operation,
                        i,
                    ),
            decreases overlap_height - y,
        {
            proof {
                lemma_index_round_trip(width as int, height, 0, y as int);
                lemma_index_round_trip(
                    modification.width as int,
                    modification.height as int,
                    0,
                    y as int,
                );
                assert(y * width + width <= width * height) by (nonlinear_arith)
                    requires
                        y < height,
                ;
                assert(y * modification.width + modification.width <= modification.width
                    * modification.height) by (nonlinear_arith)
                    requires
                        y < modification.height,
                ;
            }
            let left_row: usize = y * width;
            let right_row: usize = y * modification.width;
            let ghost row_before = self@;
            proof {
                assert forall|i: int| left_row <= i < left_row + overlap_width implies row_before[i]
                    == before[i] by {
                    lemma_index_round_trip(width as int, height, i - left_row, y as int);
                    assert(combined_cell(
                        before,
                        row_before,
                        width as int,
                        modification,
                        y as int,
                        operation,
                        i,
                    ));
                }
            }
            let mut x: usize = 0;
            while x < overlap_width
                invariant
                    self.width == width,
                    self.height == height,
                    old(self).width == width,
                    width > 0,
                    self@.len() == before.len(),
                    before == old(self)@,
                    before.len() == width * height,
                    before.len() <= usize::MAX,
                    modification.wf(),
                    modification@.len() <= usize::MAX,
                    y < overlap_height,
                    overlap_height <= height,
                    overlap_height <= modification.height,
                    x <= overlap_width,
                    0 < overlap_width <= width,
                    overlap_width <= modification.width,
                    left_row == y * width,
                    right_row == y * modification.width,
                    left_row + width <= before.len(),
                    right_row + modification.width <= modification@.len(),
                    combine_ready(old(self), modification, operation),
                    forall|i: int|
                        0 <= i < before.len() ==> #[trigger] self@[i] == row_before[i] || (left_row
                            <= i < left_row + x),
                    forall|i: int| left_row <= i < left_row + overlap_width ==> row_before[i] == before[i],
                    forall|i: int|
                        left_row <= i < left_row + x ==> operated(
                            before[i],
                            modification@[i - left_row + right_row],
                            operation,
                            #[trigger] self@[i],
                        ),
                decreases overlap_width - x,
            {
                proof {
                    lemma_index_round_trip(width as int, height, x as int, y as int);
                    lemma_index_round_trip(
                        modification.width as int,
                        modification.height as int,
                        x as int,
                        y as int,
                    );
                }
                let left_index: usize = left_row + x;
                let right_index: usize = right_row + x;
                let left: T = self.data[left_index].clone();
                let right: T = modification.data[right_index].clone();
                proof {
                    assert(self@[left_index as int] == before[left_index as int]);
                    assert(cloned(before[left_index as int], left));
                    assert(cloned(modification@[right_index as int], right));
                    assert(overlap_source(
                        width as int,
                        modification.width as int,
                        modification.height as int,
                        left_index as int,
                    ) == Some(right_index as int));
                    lemma_combine_ready(
                        old(self),
                        modification,
                        operation,
                        left_index as int,
                        right_index as int,
                        left,
                        right,
                    );
                }
                let value: T = operation(left, right);
                let ghost step_before = self@;
                self.data[left_index] = value;
                proof {
                    assert(call_ensures(operation, (left, right), self@[left_index as int]));
                    assert forall|i: int| left_row <= i < left_row + x + 1 implies operated(
                        before[i],
                        modification@[i - left_row + right_row],
                        operation,
                        #[trigger] self@[i],
                    ) by {
                        if i < left_row + x {
                            assert(self@[i] == step_before[i]);
                            assert(operated(
                                before[i],
                                modification@[i - left_row + right_row],
                                operation,
                                step_before[i],
                            ));
                        }
                    }
                }
                x += 1;
            }
            proof {
                assert forall|i: int| 0 <= i < before.len() implies #[trigger] combined_cell(
                    before,
                    self@,
                    width as int,
                    modification,
                    y + 1,
                    operation,
                    i,
                ) by {
                    lemma_coordinate_round_trip(width as int, height, i);
                    let (cx, cy) = coordinate_of(width as int, i);
                    assert(combined_cell(
                        before,
                        row_before,
                        width as int,
                        modification,
                        y as int,
                        operation,
                        i,
                    ));
                    if cy == y {
                        assert(cy * width == y * width) by (nonlinear_arith)
                            requires
                                cy == y,
                        ;
                        assert(i == left_row + cx);
                        if cx < overlap_width {
                            assert(operated(
                                before[i],
                                modification@[i - left_row + right_row],
                                operation,
                                self@[i],
                            ));
                        } else {
                            assert(self@[i] == row_before[i]);
                        }
                    } else {
                        if left_row <= i < left_row + overlap_width {
                            lemma_index_round_trip(width as int, height, i - left_row, y as int);
                        }
                        assert(self@[i] == row_before[i]);
                    }
                }
            }
            y += 1;
        }
        proof {
            assert forall|i: int| 0 <= i < before.len() implies #[trigger] combined_cell(
                before,
                self@,
                width as int,
                modification,
                modification.height as int,
                operation,
                i,
            ) by {
                lemma_coordinate_round_trip(width as int, height, i);
                assert(combined_cell(
                    before,
                    self@,
                    width as int,
                    modification,
                    overlap_height as int,
                    operation,
                    i,
                ));
            }
        }
    }
}

/// Every pair of cells that lie on each other in the overlap of the two
/// grids may be given to `+`, whatever clones are made of them.
pub open spec fn add_ready<T: Add<Output = T> + Clone>(left: &Grid<T>, right: &Grid<T>) -> bool {
    forall|i: int, j: int, a: T, b: T|
        0 <= i < left@.len() && overlap_source(
            left.width as int,
            right.width as int,
            right.height as int,
            i,
        ) == Some(j) && #[trigger] cloned(left@[i], a) && #[trigger] cloned(right@[j], b) ==> a.add_req(b)
}

/// The cell `index` of `after` is the sum of a clone of the cell of
/// `before` and a clone of the cell of the right grid that lies on it, or
/// the cell of `before` itself outside the overlap.
pub open spec fn add_cell<T: Add<Output = T> + Clone>(
    before: Seq<T>,
    after: Seq<T>,
    width: int,
    right: &Grid<T>,
    index: int,
) -> bool {
    match overlap_source(width, right.width as int, right.height as int, index) {
        Some(source) => exists|a: T, b: T|
            #[trigger] cloned(before[index], a) && #[trigger] cloned(right@[source], b) && a.add_req(b) && (
            T::obeys_add_spec() ==> after[index] == a.add_spec(b)),
        None => after[index] == before[index],
    }
}

impl<T: Add<Output = T> + Clone> Grid<T> {
    /// Replace each cell of self that lies in the overlap with the other
    /// grid by the sum of the two cells that lie on each other.
    pub fn add_assign(&mut self, modification: Grid<T>)
        requires
            old(self).wf(),
            modification.wf(),
            add_ready(old(self), &modification),
        ensures
            final(self).width == old(self).width,
            final(self).height == old(self).height,
            final(self)@.len() == old(self)@.len(),
            forall|i: int|
                0 <= i < old(self)@.len() ==> #[trigger] add_cell(
                    old(self)@,
                    final(self)@,
                    old(self).width as int,
                    &modification,
                    i,
                ),
    {
        let operation = |a: T, b: T| -> (value: T)
            requires
                a.add_req(b),
            ensures
                T::obeys_add_spec() ==> value == a.add_spec(b),
                a.add_req(b),
            { a + b };
        let ghost before = self@;
        self.combine_with(&modification, operation);
        proof {
            assert forall|i: int| 0 <= i < before.len() implies #[trigger] add_cell(
                before,
                self@,
                self.width as int,
                &modification,
                i,
            ) by {
                assert(combined_cell(
                    before,
                    self@,
                    self.width as int,
                    &modification,
                    modification.height as int,
                    operation,
                    i,
                ));
                match overlap_source(
                    self.width as int,
                    modification.width as int,
                    modification.height as int,
                    i,
                ) {
                    Some(source) => {
                        assert(operated(before[i], modification@[source], operation, self@[i]));
                        let (a, b) = choose|a: T, b: T|
                            cloned(before[i], a) && cloned(modification@[source], b)
                                && #[trigger] call_ensures(operation, (a, b), self@[i]);
                        assert(cloned(modification@[source], b));
                    },
                    None => {},
                }
            }
        }
    }
}

impl<T: Add<Output = T> + Clone> AddSpecImpl<Grid<T>> for Grid<T> {
    open spec fn obeys_add_spec() -> bool {
        false
    }

    open spec fn add_req(self, modification: Grid<T>) -> bool {
        &&& self.wf()
        &&& modification.wf()
        &&& add_ready(&self, &modification)
    }

    open spec fn add_spec(self, modification: Grid<T>) -> Grid<T> {
        self
    }
}

impl<T: Add<Output = T> + Clone> Add<Grid<T>> for Grid<T> {
    type Output = Grid<T>;

    /// The left grid with each cell that lies in the overlap with the right
    /// grid replaced by the sum of the two cells that lie on each other.
    fn add(self, modification: Grid<T>) -> (result: Grid<T>)
        ensures
            result.width == self.width,
            result.height == self.height,
            result@.len() == self@.len(),
            forall|i: int|
                0 <= i < self@.len() ==> #[trigger] add_cell(
                    self@,
                    result@,
                    self.width as int,
                    &modification,
                    i,
                ),
    {
        let mut result: Grid<T> = self;
        result.add_assign(modification);
        result
    }
}

/// Every pair of cells that lie on each other in the overlap of the two
/// grids may be given to `-`, whatever clones are made of them.
pub open spec fn sub_ready<T: Sub<Output = T> + Clone>(left: &Grid<T>, right: &Grid<T>) -> bool {
    forall|i: int, j: int, a: T, b: T|
        0 <= i < left@.len() && overlap_source(
            left.width as int,
            right.width as int,
            right.height as int,
            i,
        ) == Some(j) && #[trigger] cloned(left@[i], a) && #[trigger] cloned(right@[j], b) ==> a.sub_req(b)
}

/// The cell `index` of `after` is the difference of a clone of the cell of
/// `before` and a clone of the cell of the right grid that lies on it, or
/// the cell of `before` itself outside the overlap.
pub open spec fn sub_cell<T: Sub<Output = T> + Clone>(
    before: Seq<T>,
    after: Seq<T>,
    width: int,
    right: &Grid<T>,
    index: int,
) -> bool {
    match overlap_source(width, right.width as int, right.height as int, index) {
        Some(source) => exists|a: T, b: T|
            #[trigger] cloned(before[index], a) && #[trigger] cloned(right@[source], b) && a.sub_req(b) && (
            T::obeys_sub_spec() ==> after[index] == a.sub_spec(b)),
        None => after[index] == before[index],
    }
}

impl<T: Sub<Output = T> + Clone> Grid<T> {
    /// Replace each cell of self that lies in the overlap with the other
    /// grid by the difference of the two cells that lie on each other.
    pub fn sub_assign(&mut self, modification: Grid<T>)
        requires
            old(self).wf(),
            modification.wf(),
            sub_ready(old(self), &modification),
        ensures
            final(self).width == old(self).width,
            final(self).height == old(self).height,
            final(self)@.len() == old(self)@.len(),
            forall|i: int|
                0 <= i < old(self)@.len() ==> #[trigger] sub_cell(
                    old(self)@,
                    final(self)@,
                    old(self).width as int,
                    &modification,
                    i,
                ),
    {
        let operation = |a: T, b: T| -> (value: T)
            requires
                a.sub_req(b),
            ensures
                T::obeys_sub_spec() ==> value == a.sub_spec(b),
                a.sub_req(b),
            { a - b };
        let ghost before = self@;
        self.combine_with(&modification, operation);
        proof {
            assert forall|i: int| 0 <= i < before.len() implies #[trigger] sub_cell(
                before,
                self@,
                self.width as int,
                &modification,
                i,
            ) by {
                assert(combined_cell(
                    before,
                    self@,
                    self.width as int,
                    &modification,
                    modification.height as int,
                    operation,
                    i,
                ));
                match overlap_source(
                    self.width as int,
                    modification.width as int,
                    modification.height as int,
                    i,
                ) {
                    Some(source) => {
                        assert(operated(before[i], modification@[source], operation, self@[i]));
                        let (a, b) = choose|a: T, b: T|
                            cloned(before[i], a) && cloned(modification@[source], b)
                                && #[trigger] call_ensures(operation, (a, b), self@[i]);
                        assert(cloned(modification@[source], b));
                    },
                    None => {},
                }
            }
        }
    }
}

impl<T: Sub<Output = T> + Clone> SubSpecImpl<Grid<T>> for Grid<T> {
    open spec fn obeys_sub_spec() -> bool {
        false
    }

    open spec fn sub_req(self, modification: Grid<T>) -> bool {
        &&& self.wf()
        &&& modification.wf()
        &&& sub_ready(&self, &modification)
    }

    open spec fn sub_spec(self, modification: Grid<T>) -> Grid<T> {
        self
    }
}

impl<T: Sub<Output = T> + Clone> Sub<Grid<T>> for Grid<T> {
    type Output = Grid<T>;

    /// The left grid with each cell that lies in the overlap with the right
    /// grid replaced by the difference of the two cells that lie on each other.
    fn sub(self, modification: Grid<T>) -> (result: Grid<T>)
        ensures
            result.width == self.width,
            result.height == self.height,
            result@.len() == self@.len(),
            forall|i: int|
                0 <= i < self@.len() ==> #[trigger] sub_cell(
                    self@,
                    result@,
                    self.width as int,
                    &modification,
                    i,
                ),
    {
        let mut result: Grid<T> = self;
        result.sub_assign(modification);
        result
    }
}

/// Every pair of cells that lie on each other in the overlap of the two
/// grids may be given to `*`, whatever clones are made of them.
pub open spec fn mul_ready<T: Mul<Output = T> + Clone>(left: &Grid<T>, right: &Grid<T>) -> bool {
    forall|i: int, j: int, a: T, b: T|
        0 <= i < left@.len() && overlap_source(
            left.width as int,
            right.width as int,
            right.height as int,
            i,
        ) == Some(j) && #[trigger] cloned(left@[i], a) && #[trigger] cloned(right@[j], b) ==> a.mul_req(b)
}

/// The cell `index` of `after` is the product of a clone of the cell of
/// `before` and a clone of the cell of the right grid that lies on it, or
/// the cell of `before` itself outside the overlap.
pub open spec fn mul_cell<T: Mul<Output = T> + Clone>(
    before: Seq<T>,
    after: Seq<T>,
    width: int,
    right: &Grid<T>,
    index: int,
) -> bool {
    match overlap_source(width, right.width as int, right.height as int, index) {
        Some(source) => exists|a: T, b: T|
            #[trigger] cloned(before[index], a) && #[trigger] cloned(right@[source], b) && a.mul_req(b) && (
            T::obeys_mul_spec() ==> after[index] == a.mul_spec(b)),
        None => after[index] == before[index],
    }
}

impl<T: Mul<Output = T> + Clone> Grid<T> {
    /// Replace each cell of self that lies in the overlap with the other
    /// grid by the product of the two cells that lie on each other.
    pub fn mul_assign(&mut self, modification: Grid<T>)
        requires
            old(self).wf(),
            modification.wf(),
            mul_ready(old(self), &modification),
        ensures
            final(self).width == old(self).width,
            final(self).height == old(self).height,
            final(self)@.len() == old(self)@.len(),
            forall|i: int|
                0 <= i < old(self)@.len() ==> #[trigger] mul_cell(
                    old(self)@,
                    final(self)@,
                    old(self).width as int,
                    &modification,
                    i,
                ),
    {
        let operation = |a: T, b: T| -> (value: T)
            requires
                a.mul_req(b),
            ensures
                T::obeys_mul_spec() ==> value == a.mul_spec(b),
                a.mul_req(b),
            { a * b };
        let ghost before = self@;
        self.combine_with(&modification, operation);
        proof {
            assert forall|i: int| 0 <= i < before.len() implies #[trigger] mul_cell(
                before,
                self@,
                self.width as int,
                &modification,
                i,
            ) by {
                assert(combined_cell(
                    before,
                    self@,
                    self.width as int,
                    &modification,
                    modification.height as int,
                    operation,
                    i,
                ));
                match overlap_source(
                    self.width as int,
                    modification.width as int,
                    modification.height as int,
                    i,
                ) {
                    Some(source) => {
                        assert(operated(before[i], modification@[source], operation, self@[i]));
                        let (a, b) = choose|a: T, b: T|
                            cloned(before[i], a) && cloned(modification@[source], b)
                                && #[trigger] call_ensures(operation, (a, b), self@[i]);
                        assert(cloned(modification@[source], b));
                    },
                    None => {},
                }
            }
        }
    }
}

impl<T: Mul<Output = T> + Clone> MulSpecImpl<Grid<T>> for Grid<T> {
    open spec fn obeys_mul_spec() -> bool {
        false
    }

    open spec fn mul_req(self, modification: Grid<T>) -> bool {
        &&& self.wf()
        &&& modification.wf()
        &&& mul_ready(&self, &modification)
    }

    open spec fn mul_spec(self, modification: Grid<T>) -> Grid<T> {
        self
    }
}

impl<T: Mul<Output = T> + Clone> Mul<Grid<T>> for Grid<T> {
    type Output = Grid<T>;

    /// The left grid with each cell that lies in the overlap with the right
    /// grid replaced by the product of the two cells that lie on each other.
    fn mul(self, modification: Grid<T>) -> (result: Grid<T>)
        ensures
            result.width == self.width,
            result.height == self.height,
            result@.len() == self@.len(),
            forall|i: int|
                0 <= i < self@.len() ==> #[trigger] mul_cell(
                    self@,
                    result@,
                    self.width as int,
                    &modification,
                    i,
                ),
    {
        let mut result: Grid<T> = self;
        result.mul_assign(modification);
        result
    }
}

/// Every pair of cells that lie on each other in the overlap of the two
/// grids may be given to `/`, whatever clones are made of them.
pub open spec fn div_ready<T: Div<Output = T> + Clone>(left: &Grid<T>, right: &Grid<T>) -> bool {
    forall|i: int, j: int, a: T, b: T|
        0 <= i < left@.len() && overlap_source(
            left.width as int,
            right.width as int,
            right.height as int,
            i,
        ) == Some(j) && #[trigger] cloned(left@[i], a) && #[trigger] cloned(right@[j], b) ==> a.div_req(b)
}

/// The cell `index` of `after` is the quotient of a clone of the cell of
/// `before` and a clone of the cell of the right grid that lies on it, or
/// the cell of `before` itself outside the overlap.
pub open spec fn div_cell<T: Div<Output = T> + Clone>(
    before: Seq<T>,
    after: Seq<T>,
    width: int,
    right: &Grid<T>,
    index: int,
) -> bool {
    match overlap_source(width, right.width as int, right.height as int, index) {
        Some(source) => exists|a: T, b: T|
            #[trigger] cloned(before[index], a) && #[trigger] cloned(right@[source], b) && a.div_req(b) && (
            T::obeys_div_spec() ==> after[index] == a.div_spec(b)),
        None => after[index] == before[index],
    }
}

impl<T: Div<Output = T> + Clone> Grid<T> {
    /// Replace each cell of self that lies in the overlap with the other
    /// grid by the quotient of the two cells that lie on each other.
    pub fn div_assign(&mut self, modification: Grid<T>)
        requires
            old(self).wf(),
            modification.wf(),
            div_ready(old(self), &modification),
        ensures
            final(self).width == old(self).width,
            final(self).height == old(self).height,
            final(self)@.len() == old(self)@.len(),
            forall|i: int|
                0 <= i < old(self)@.len() ==> #[trigger] div_cell(
                    old(self)@,
                    final(self)@,
                    old(self).width as int,
                    &modification,
                    i,
                ),
    {
        let operation = |a: T, b: T| -> (value: T)
            requires
                a.div_req(b),
            ensures
                T::obeys_div_spec() ==> value == a.div_spec(b),
                a.div_req(b),
            { a / b };
        let ghost before = self@;
        self.combine_with(&modification, operation);
        proof {
            assert forall|i: int| 0 <= i < before.len() implies #[trigger] div_cell(
                before,
                self@,
                self.width as int,
                &modification,
                i,
            ) by {
                assert(combined_cell(
                    before,
                    self@,
                    self.width as int,
                    &modification,
                    modification.height as int,
                    operation,
                    i,
                ));
                match overlap_source(
                    self.width as int,
                    modification.width as int,
                    modification.height as int,
                    i,
                ) {
                    Some(source) => {
                        assert(operated(before[i], modification@[source], operation, self@[i]));
                        let (a, b) = choose|a: T, b: T|
                            cloned(before[i], a) && cloned(modification@[source], b)
                                && #[trigger] call_ensures(operation, (a, b), self@[i]);
                        assert(cloned(modification@[source], b));
                    },
                    None => {},
                }
            }
        }
    }
}

impl<T: Div<Output = T> + Clone> DivSpecImpl<Grid<T>> for Grid<T> {
    open spec fn obeys_div_spec() -> bool {
        false
    }

    open spec fn div_req(self, modification: Grid<T>) -> bool {
        &&& self.wf()
        &&& modification.wf()
        &&& div_ready(&self, &modification)
    }

    open spec fn div_spec(self, modification: Grid<T>) -> Grid<T> {
        self
    }
}

impl<T: Div<Output = T> + Clone> Div<Grid<T>> for Grid<T> {
    type Output = Grid<T>;

    /// The left grid with each cell that lies in the overlap with the right
    /// grid replaced by the quotient of the two cells that lie on each other.
    fn div(self, modification: Grid<T>) -> (result: Grid<T>)
        ensures
            result.width == self.width,
            result.height == self.height,
            result@.len() == self@.len(),
            forall|i: int|
                0 <= i < self@.len() ==> #[trigger] div_cell(
                    self@,
                    result@,
                    self.width as int,
                    &modification,
                    i,
                ),
    {
        let mut result: Grid<T> = self;
        result.div_assign(modification);
        result
    }
}

/// Every pair of cells that lie on each other in the overlap of the two
/// grids may be given to `&`, whatever clones are made of them.
pub open spec fn bitand_ready<T: BitAnd<Output = T> + Clone>(left: &Grid<T>, right: &Grid<T>) -> bool {
    forall|i: int, j: int, a: T, b: T|
        0 <= i < left@.len() && overlap_source(
            left.width as int,
            right.width as int,
            right.height as int,
            i,
        ) == Some(j) && #[trigger] cloned(left@[i], a) && #[trigger] cloned(right@[j], b) ==> a.bitand_req(b)
}

/// The cell `index` of `after` is the bitwise and of a clone of the cell of
/// `before` and a clone of the cell of the right grid that lies on it, or
/// the cell of `before` itself outside the overlap.
pub open spec fn bitand_cell<T: BitAnd<Output = T> + Clone>(
    before: Seq<T>,
    after: Seq<T>,
    width: int,
    right: &Grid<T>,
    index: int,
) -> bool {
    match overlap_source(width, right.width as int, right.height as int, index) {
        Some(source) => exists|a: T, b: T|
            #[trigger] cloned(before[index], a) && #[trigger] cloned(right@[source], b) && a.bitand_req(b) && (
            T::obeys_bitand_spec() ==> after[index] == a.bitand_spec(b)),
        None => after[index] == before[index],
    }
}

impl<T: BitAnd<Output = T> + Clone> Grid<T> {
    /// Replace each cell of self that lies in the overlap with the other
    /// grid by the bitwise and of the two cells that lie on each other.
    pub fn bitand_assign(&mut self, modification: Grid<T>)
        requires
            old(self).wf(),
            modification.wf(),
            bitand_ready(old(self), &modification),
        ensures
            final(self).width == old(self).width,
            final(self).height == old(self).height,
            final(self)@.len() == old(self)@.len(),
            forall|i: int|
                0 <= i < old(self)@.len() ==> #[trigger] bitand_cell(
                    old(self)@,
                    final(self)@,
                    old(self).width as int,
                    &modification,
                    i,
                ),
    {
        let operation = |a: T, b: T| -> (value: T)
            requires
                a.bitand_req(b),
            ensures
                T::obeys_bitand_spec() ==> value == a.bitand_spec(b),
                a.bitand_req(b),
            { a & b };
        let ghost before = self@;
        self.combine_with(&modification, operation);
        proof {
            assert forall|i: int| 0 <= i < before.len() implies #[trigger] bitand_cell(
                before,
                self@,
                self.width as int,
                &modification,
                i,
            ) by {
                assert(combined_cell(
                    before,
                    self@,
                    self.width as int,
                    &modification,
                    modification.height as int,
                    operation,
                    i,
                ));
                match overlap_source(
                    self.width as int,
                    modification.width as int,
                    modification.height as int,
                    i,
                ) {
                    Some(source) => {
                        assert(operated(before[i], modification@[source], operation, self@[i]));
                        let (a, b) = choose|a: T, b: T|
                            cloned(before[i], a) && cloned(modification@[source], b)
                                && #[trigger] call_ensures(operation, (a, b), self@[i]);
                        assert(cloned(modification@[source], b));
                    },
                    None => {},
                }
            }
        }
    }
}

impl<T: BitAnd<Output = T> + Clone> BitAndSpecImpl<Grid<T>> for Grid<T> {
    open spec fn obeys_bitand_spec() -> bool {
        false
    }

    open spec fn bitand_req(self, modification: Grid<T>) -> bool {
        &&& self.wf()
        &&& modification.wf()
        &&& bitand_ready(&self, &modification)
    }

    open spec fn bitand_spec(self, modification: Grid<T>) -> Grid<T> {
        self
    }
}

impl<T: BitAnd<Output = T> + Clone> BitAnd<Grid<T>> for Grid<T> {
    type Output = Grid<T>;

    /// The left grid with each cell that lies in the overlap with the right
    /// grid replaced by the bitwise and of the two cells that lie on each other.
    fn bitand(self, modification: Grid<T>) -> (result: Grid<T>)
        ensures
            result.width == self.width,
            result.height == self.height,
            result@.len() == self@.len(),
            forall|i: int|
                0 <= i < self@.len() ==> #[trigger] bitand_cell(
                    self@,
                    result@,
                    self.width as int,
                    &modification,
                    i,
                ),
    {
        let mut result: Grid<T> = self;
        result.bitand_assign(modification);
        result
    }
}

/// Every pair of cells that lie on each other in the overlap of the two
/// grids may be given to `|`, whatever clones are made of them.
pub open spec fn bitor_ready<T: BitOr<Output = T> + Clone>(left: &Grid<T>, right: &Grid<T>) -> bool {
    forall|i: int, j: int, a: T, b: T|
        0 <= i < left@.len() && overlap_source(
            left.width as int,
            right.width as int,
            right.height as int,
            i,
        ) == Some(j) && #[trigger] cloned(left@[i], a) && #[trigger] cloned(right@[j], b) ==> a.bitor_req(b)
}

/// The cell `index` of `after` is the bitwise or of a clone of the cell of
/// `before` and a clone of the cell of the right grid that lies on it, or
/// the cell of `before` itself outside the overlap.
pub open spec fn bitor_cell<T: BitOr<Output = T> + Clone>(
    before: Seq<T>,
    after: Seq<T>,
    width: int,
    right: &Grid<T>,
    index: int,
) -> bool {
    match overlap_source(width, right.width as int, right.height as int, index) {
        Some(source) => exists|a: T, b: T|
            #[trigger] cloned(before[index], a) && #[trigger] cloned(right@[source], b) && a.bitor_req(b) && (
            T::obeys_bitor_spec() ==> after[index] == a.bitor_spec(b)),
        None => after[index] == before[index],
    }
}

impl<T: BitOr<Output = T> + Clone> Grid<T> {
    /// Replace each cell of self that lies in the overlap with the other
    /// grid by the bitwise or of the two cells that lie on each other.
    pub fn bitor_assign(&mut self, modification: Grid<T>)
        requires
            old(self).wf(),
            modification.wf(),
            bitor_ready(old(self), &modification),
        ensures
            final(self).width == old(self).width,
            final(self).height == old(self).height,
            final(self)@.len() == old(self)@.len(),
            forall|i: int|
                0 <= i < old(self)@.len() ==> #[trigger] bitor_cell(
                    old(self)@,
                    final(self)@,
                    old(self).width as int,
                    &modification,
                    i,
                ),
    {
        let operation = |a: T, b: T| -> (value: T)
            requires
                a.bitor_req(b),
            ensures
                T::obeys_bitor_spec() ==> value == a.bitor_spec(b),
                a.bitor_req(b),
            { a | b };
        let ghost before = self@;
        self.combine_with(&modification, operation);
        proof {
            assert forall|i: int| 0 <= i < before.len() implies #[trigger] bitor_cell(
                before,
                self@,
                self.width as int,
                &modification,
                i,
            ) by {
                assert(combined_cell(
                    before,
                    self@,
                    self.width as int,
                    &modification,
                    modification.height as int,
                    operation,
                    i,
                ));
                match overlap_source(
                    self.width as int,
                    modification.width as int,
                    modification.height as int,
                    i,
                ) {
                    Some(source) => {
                        assert(operated(before[i], modification@[source], operation, self@[i]));
                        let (a, b) = choose|a: T, b: T|
                            cloned(before[i], a) && cloned(modification@[source], b)
                                && #[trigger] call_ensures(operation, (a, b), self@[i]);
                        assert(cloned(modification@[source], b));
                    },
                    None => {},
                }
            }
        }
    }
}

impl<T: BitOr<Output = T> + Clone> BitOrSpecImpl<Grid<T>> for Grid<T> {
    open spec fn obeys_bitor_spec() -> bool {
        false
    }

    open spec fn bitor_req(self, modification: Grid<T>) -> bool {
        &&& self.wf()
        &&& modification.wf()
        &&& bitor_ready(&self, &modification)
    }

    open spec fn bitor_spec(self, modification: Grid<T>) -> Grid<T> {
        self
    }
}

impl<T: BitOr<Output = T> + Clone> BitOr<Grid<T>> for Grid<T> {
    type Output = Grid<T>;

    /// The left grid with each cell that lies in the overlap with the right
    /// grid replaced by the bitwise or of the two cells that lie on each other.
    fn bitor(self, modification: Grid<T>) -> (result: Grid<T>)
        ensures
            result.width == self.width,
            result.height == self.height,
            result@.len() == self@.len(),
            forall|i: int|
                0 <= i < self@.len() ==> #[trigger] bitor_cell(
                    self@,
                    result@,
                    self.width as int,
                    &modification,
                    i,
                ),
    {
        let mut result: Grid<T> = self;
        result.bitor_assign(modification);
        result
    }
}

/// Every pair of cells that lie on each other in the overlap of the two
/// grids may be given to `^`, whatever clones are made of them.
pub open spec fn bitxor_ready<T: BitXor<Output = T> + Clone>(left: &Grid<T>, right: &Grid<T>) -> bool {
    forall|i: int, j: int, a: T, b: T|
        0 <= i < left@.len() && overlap_source(
            left.width as int,
            right.width as int,
            right.height as int,
            i,
        ) == Some(j) && #[trigger] cloned(left@[i], a) && #[trigger] cloned(right@[j], b) ==> a.bitxor_req(b)
}

/// The cell `index` of `after` is the bitwise exclusive or of a clone of the cell of
/// `before` and a clone of the cell of the right grid that lies on it, or
/// the cell of `before` itself outside the overlap.
pub open spec fn bitxor_cell<T: BitXor<Output = T> + Clone>(
    before: Seq<T>,
    after: Seq<T>,
    width: int,
    right: &Grid<T>,
    index: int,
) -> bool {
    match overlap_source(width, right.width as int, right.height as int, index) {
        Some(source) => exists|a: T, b: T|
            #[trigger] cloned(before[index], a) && #[trigger] cloned(right@[source], b) && a.bitxor_req(b) && (
            T::obeys_bitxor_spec() ==> after[index] == a.bitxor_spec(b)),
        None => after[index] == before[index],
    }
}

impl<T: BitXor<Output = T> + Clone> Grid<T> {
    /// Replace each cell of self that lies in the overlap with the other
    /// grid by the bitwise exclusive or of the two cells that lie on each other.
    pub fn bitxor_assign(&mut self, modification: Grid<T>)
        requires
            old(self).wf(),
            modification.wf(),
            bitxor_ready(old(self), &modification),
        ensures
            final(self).width == old(self).width,
            final(self).height == old(self).height,
            final(self)@.len() == old(self)@.len(),
            forall|i: int|
                0 <= i < old(self)@.len() ==> #[trigger] bitxor_cell(
                    old(self)@,
                    final(self)@,
                    old(self).width as int,
                    &modification,
                    i,
                ),
    {
        let operation = |a: T, b: T| -> (value: T)
            requires
                a.bitxor_req(b),
            ensures
                T::obeys_bitxor_spec() ==> value == a.bitxor_spec(b),
                a.bitxor_req(b),
            { a ^ b };
        let ghost before = self@;
        self.combine_with(&modification, operation);
        proof {
            assert forall|i: int| 0 <= i < before.len() implies #[trigger] bitxor_cell(
                before,
                self@,
                self.width as int,
                &modification,
                i,
            ) by {
                assert(combined_cell(
                    before,
                    self@,
                    self.width as int,
                    &modification,
                    modification.height as int,
                    operation,
                    i,
                ));
                match overlap_source(
                    self.width as int,
                    modification.width as int,
                    modification.height as int,
                    i,
                ) {
                    Some(source) => {
                        assert(operated(before[i], modification@[source], operation, self@[i]));
                        let (a, b) = choose|a: T, b: T|
                            cloned(before[i], a) && cloned(modification@[source], b)
                                && #[trigger] call_ensures(operation, (a, b), self@[i]);
                        assert(cloned(modification@[source], b));
                    },
                    None => {},
                }
            }
        }
    }
}

impl<T: BitXor<Output = T> + Clone> BitXorSpecImpl<Grid<T>> for Grid<T> {
    open spec fn obeys_bitxor_spec() -> bool {
        false
    }

    open spec fn bitxor_req(self, modification: Grid<T>) -> bool {
        &&& self.wf()
        &&& modification.wf()
        &&& bitxor_ready(&self, &modification)
    }

    open spec fn bitxor_spec(self, modification: Grid<T>) -> Grid<T> {
        self
    }
}

impl<T: BitXor<Output = T> + Clone> BitXor<Grid<T>> for Grid<T> {
    type Output = Grid<T>;

    /// The left grid with each cell that lies in the overlap with the right
    /// grid replaced by the bitwise exclusive or of the two cells that lie on each other.
    fn bitxor(self, modification: Grid<T>) -> (result: Grid<T>)
        ensures
            result.width == self.width,
            result.height == self.height,
            result@.len() == self@.len(),
            forall|i: int|
                0 <= i < self@.len() ==> #[trigger] bitxor_cell(
                    self@,
                    result@,
                    self.width as int,
                    &modification,
                    i,
                ),
    {
        let mut result: Grid<T> = self;
        result.bitxor_assign(modification);
        result
    }
}

/// Every pair of cells that lie on each other in the overlap of the two
/// grids may be given to `<<`, whatever clones are made of them.
pub open spec fn shl_ready<T: Shl<Output = T> + Clone>(left: &Grid<T>, right: &Grid<T>) -> bool {
    forall|i: int, j: int, a: T, b: T|
        0 <= i < left@.len() && overlap_source(
            left.width as int,
            right.width as int,
            right.height as int,
            i,
        ) == Some(j) && #[trigger] cloned(left@[i], a) && #[trigger] cloned(right@[j], b) ==> a.shl_req(b)
}

/// The cell `index` of `after` is the left shift of a clone of the cell of
/// `before` and a clone of the cell of the right grid that lies on it, or
/// the cell of `before` itself outside the overlap.
pub open spec fn shl_cell<T: Shl<Output = T> + Clone>(
    before: Seq<T>,
    after: Seq<T>,
    width: int,
    right: &Grid<T>,
    index: int,
) -> bool {
    match overlap_source(width, right.width as int, right.height as int, index) {
        Some(source) => exists|a: T, b: T|
            #[trigger] cloned(before[index], a) && #[trigger] cloned(right@[source], b) && a.shl_req(b) && (
            T::obeys_shl_spec() ==> after[index] == a.shl_spec(b)),
        None => after[index] == before[index],
    }
}

impl<T: Shl<Output = T> + Clone> Grid<T> {
    /// Replace each cell of self that lies in the overlap with the other
    /// grid by the left shift of the two cells that lie on each other.
    pub fn shl_assign(&mut self, modification: Grid<T>)
        requires
            old(self).wf(),
            modification.wf(),
            shl_ready(old(self), &modification),
        ensures
            final(self).width == old(self).width,
            final(self).height == old(self).height,
            final(self)@.len() == old(self)@.len(),
            forall|i: int|
                0 <= i < old(self)@.len() ==> #[trigger] shl_cell(
                    old(self)@,
                    final(self)@,
                    old(self).width as int,
                    &modification,
                    i,
                ),
    {
        let operation = |a: T, b: T| -> (value: T)
            requires
                a.shl_req(b),
            ensures
                T::obeys_shl_spec() ==> value == a.shl_spec(b),
                a.shl_req(b),
            { a << b };
        let ghost before = self@;
        self.combine_with(&modification, operation);
        proof {
            assert forall|i: int| 0 <= i < before.len() implies #[trigger] shl_cell(
                before,
                self@,
                self.width as int,
                &modification,
                i,
            ) by {
                assert(combined_cell(
                    before,
                    self@,
                    self.width as int,
                    &modification,
                    modification.height as int,
                    operation,
                    i,
                ));
                match overlap_source(
                    self.width as int,
                    modification.width as int,
                    modification.height as int,
                    i,
                ) {
                    Some(source) => {
                        assert(operated(before[i], modification@[source], operation, self@[i]));
                        let (a, b) = choose|a: T, b: T|
                            cloned(before[i], a) && cloned(modification@[source], b)
                                && #[trigger] call_ensures(operation, (a, b), self@[i]);
                        assert(cloned(modification@[source], b));
                    },
                    None => {},
                }
            }
        }
    }
}

impl<T: Shl<Output = T> + Clone> ShlSpecImpl<Grid<T>> for Grid<T> {
    open spec fn obeys_shl_spec() -> bool {
        false
    }

    open spec fn shl_req(self, modification: Grid<T>) -> bool {
        &&& self.wf()
        &&& modification.wf()
        &&& shl_ready(&self, &modification)
    }

    open spec fn shl_spec(self, modification: Grid<T>) -> Grid<T> {
        self
    }
}

impl<T: Shl<Output = T> + Clone> Shl<Grid<T>> for Grid<T> {
    type Output = Grid<T>;

    /// The left grid with each cell that lies in the overlap with the right
    /// grid replaced by the left shift of the two cells that lie on each other.
    fn shl(self, modification: Grid<T>) -> (result: Grid<T>)
        ensures
            result.width == self.width,
            result.height == self.height,
            result@.len() == self@.len(),
            forall|i: int|
                0 <= i < self@.len() ==> #[trigger] shl_cell(
                    self@,
                    result@,
                    self.width as int,
                    &modification,
                    i,
                ),
    {
        let mut result: Grid<T> = self;
        result.shl_assign(modification);
        result
    }
}

/// Every pair of cells that lie on each other in the overlap of the two
/// grids may be given to `>>`, whatever clones are made of them.
pub open spec fn shr_ready<T: Shr<Output = T> + Clone>(left: &Grid<T>, right: &Grid<T>) -> bool {
    forall|i: int, j: int, a: T, b: T|
        0 <= i < left@.len() && overlap_source(
            left.width as int,
            right.width as int,
            right.height as int,
            i,
        ) == Some(j) && #[trigger] cloned(left@[i], a) && #[trigger] cloned(right@[j], b) ==> a.shr_req(b)
}

/// The cell `index` of `after` is the right shift of a clone of the cell of
/// `before` and a clone of the cell of the right grid that lies on it, or
/// the cell of `before` itself outside the overlap.
pub open spec fn shr_cell<T: Shr<Output = T> + Clone>(
    before: Seq<T>,
    after: Seq<T>,
    width: int,
    right: &Grid<T>,
    index: int,
) -> bool {
    match overlap_source(width, right.width as int, right.height as int, index) {
        Some(source) => exists|a: T, b: T|
            #[trigger] cloned(before[index], a) && #[trigger] cloned(right@[source], b) && a.shr_req(b) && (
            T::obeys_shr_spec() ==> after[index] == a.shr_spec(b)),
        None => after[index] == before[index],
    }
}

impl<T: Shr<Output = T> + Clone> Grid<T> {
    /// Replace each cell of self that lies in the overlap with the other
    /// grid by the right shift of the two cells that lie on each other.
    pub fn shr_assign(&mut self, modification: Grid<T>)
        requires
            old(self).wf(),
            modification.wf(),
            shr_ready(old(self), &modification),
        ensures
            final(self).width == old(self).width,
            final(self).height == old(self).height,
            final(self)@.len() == old(self)@.len(),
            forall|i: int|
                0 <= i < old(self)@.len() ==> #[trigger] shr_cell(
                    old(self)@,
                    final(self)@,
                    old(self).width as int,
                    &modification,
                    i,
                ),
    {
        let operation = |a: T, b: T| -> (value: T)
            requires
                a.shr_req(b),
            ensures
                T::obeys_shr_spec() ==> value == a.shr_spec(b),
                a.shr_req(b),
            { a >> b };
        let ghost before = self@;
        self.combine_with(&modification, operation);
        proof {
            assert forall|i: int| 0 <= i < before.len() implies #[trigger] shr_cell(
                before,
                self@,
                self.width as int,
                &modification,
                i,
            ) by {
                assert(combined_cell(
                    before,
                    self@,
                    self.width as int,
                    &modification,
                    modification.height as int,
                    operation,
                    i,
                ));
                match overlap_source(
                    self.width as int,
                    modification.width as int,
                    modification.height as int,
                    i,
                ) {
                    Some(source) => {
                        assert(operated(before[i], modification@[source], operation, self@[i]));
                        let (a, b) = choose|a: T, b: T|
                            cloned(before[i], a) && cloned(modification@[source], b)
                                && #[trigger] call_ensures(operation, (a, b), self@[i]);
                        assert(cloned(modification@[source], b));
                    },
                    None => {},
                }
            }
        }
    }
}

impl<T: Shr<Output = T> + Clone> ShrSpecImpl<Grid<T>> for Grid<T> {
    open spec fn obeys_shr_spec() -> bool {
        false
    }

    open spec fn shr_req(self, modification: Grid<T>) -> bool {
        &&& self.wf()
        &&& modification.wf()
        &&& shr_ready(&self, &modification)
    }

    open spec fn shr_spec(self, modification: Grid<T>) -> Grid<T> {
        self
    }
}

impl<T: Shr<Output = T> + Clone> Shr<Grid<T>> for Grid<T> {
    type Output = Grid<T>;

    /// The left grid with each cell that lies in the overlap with the right
    /// grid replaced by the right shift of the two cells that lie on each other.
    fn shr(self, modification: Grid<T>) -> (result: Grid<T>)
        ensures
            result.width == self.width,
            result.height == self.height,
            result@.len() == self@.len(),
            forall|i: int|
                0 <= i < self@.len() ==> #[trigger] shr_cell(
                    self@,
                    result@,
                    self.width as int,
                    &modification,
                    i,
                ),
    {
        let mut result: Grid<T> = self;
        result.shr_assign(modification);
        result
    }
}

} // verus!
