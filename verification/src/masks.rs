use std::ops::Range;
use vstd::prelude::*;
use vstd::std_specs::cmp::PartialEqSpec;
use crate::grid::Grid;

verus! {

/// The cells from `start` up to `end` all hold `value`, and the run cannot be
/// made longer at either end.
pub open spec fn is_run(cells: Seq<bool>, value: bool, start: int, end: int) -> bool {
    &&& 0 <= start < end <= cells.len()
    &&& forall|i: int| start <= i < end ==> cells[i] == value
    &&& (start == 0 || cells[start - 1] != value)
    &&& (end == cells.len() || cells[end] != value)
}

/// One of the ranges holds the index.
#[verifier::opaque]
pub open spec fn in_ranges(ranges: Seq<Range<usize>>, index: int) -> bool {
    exists|k: int| 0 <= k < ranges.len() && (#[trigger] ranges[k]).start <= index < ranges[k].end
}

/// The ranges are, in ascending order, the runs of `value` that end at or
/// before `limit`, and no cell before `limit` that holds `value` is missed.
pub open spec fn runs_upto(cells: Seq<bool>, value: bool, ranges: Seq<Range<usize>>, limit: int) -> bool {
    &&& forall|k: int|
        0 <= k < ranges.len() ==> is_run(
            cells,
            value,
            (#[trigger] ranges[k]).start as int,
            ranges[k].end as int,
        ) && ranges[k].end <= limit
    &&& forall|j: int, k: int|
        0 <= j < k < ranges.len() ==> (#[trigger] ranges[j]).end < (#[trigger] ranges[k]).start
    &&& forall|i: int| 0 <= i < limit && #[trigger] cells[i] == value ==> in_ranges(ranges, i)
}

/// The ranges are exactly the maximal runs of `value` in the cells, in
/// ascending order.
pub open spec fn is_runs_of(cells: Seq<bool>, value: bool, ranges: Seq<Range<usize>>) -> bool {
    runs_upto(cells, value, ranges, cells.len() as int)
}

/// A boolean grid together with its runs of `true` and of `false` cells.
#[derive(Debug, Clone, PartialEq)]
pub struct GridMask {
    pub source_grid: Grid<bool>,
    pub positive_ranges: Vec<Range<usize>>,
    pub negative_ranges: Vec<Range<usize>>,
}

impl GridMask {
    /// The ranges are the runs of the grid: together they cut its cells into
    /// stretches of one value that alternate.
    pub open spec fn wf(&self) -> bool {
        &&& is_runs_of(self.source_grid@, true, self.positive_ranges@)
        &&& is_runs_of(self.source_grid@, false, self.negative_ranges@)
    }

    /// Create a new mask.
    pub fn new(source_grid: Grid<bool>) -> (mask: GridMask)
        ensures
            mask.source_grid == source_grid,
            mask.wf(),
    {
        let mut positive_ranges: Vec<Range<usize>> = Vec::new();
        let mut negative_ranges: Vec<Range<usize>> = Vec::new();
        let len: usize = source_grid.data.len();
        let ghost cells = source_grid@;
        if len > 0 {
            let mut range_start: usize = 0;
            let mut range_start_value: bool = source_grid.data[0];
            let mut cursor: usize = 1;
            while cursor < len
                invariant
                    len == cells.len(),
                    cells == source_grid@,
                    range_start < cursor <= len,
                    forall|i: int| range_start <= i < cursor ==> cells[i] == range_start_value,
                    range_start == 0 || cells[range_start - 1] != range_start_value,
                    runs_upto(cells, true, positive_ranges@, range_start as int),
                    runs_upto(cells, false, negative_ranges@, range_start as int),
                decreases len - cursor,
            {
                let cursor_value: bool = source_grid.data[cursor];
                if cursor_value != range_start_value {
                    if range_start_value {
                        proof {
                            lemma_push_run(cells, true, positive_ranges@, range_start as int, cursor as int);
                            lemma_skip_run(cells, false, negative_ranges@, range_start as int, cursor as int);
                        }
                        positive_ranges.push(range_start..cursor);
                    } else {
                        proof {
                            lemma_push_run(cells, false, negative_ranges@, range_start as int, cursor as int);
                            lemma_skip_run(cells, true, positive_ranges@, range_start as int, cursor as int);
                        }
                        negative_ranges.push(range_start..cursor);
                    }
                    range_start = cursor;
                    range_start_value = cursor_value;
                }
                cursor += 1;
            }
            if range_start_value {
                proof {
                    lemma_push_run(cells, true, positive_ranges@, range_start as int, len as int);
                    lemma_skip_run(cells, false, negative_ranges@, range_start as int, len as int);
                }
                positive_ranges.push(range_start..len);
            } else {
                proof {
                    lemma_push_run(cells, false, negative_ranges@, range_start as int, len as int);
                    lemma_skip_run(cells, true, positive_ranges@, range_start as int, len as int);
                }
                negative_ranges.push(range_start..len);
            }
        }
        GridMask { source_grid, positive_ranges, negative_ranges }
    }

    /// Get the source grid.
    pub fn grid(&self) -> (grid: &Grid<bool>)
        ensures
            grid == &self.source_grid,
    {
        &self.source_grid
    }

    /// Get the positive ranges.
    pub fn positive_ranges(&self) -> (ranges: &[Range<usize>])
        ensures
            ranges@ == self.positive_ranges@,
    {
        self.positive_ranges.as_slice()
    }

    /// Get the negative ranges.
    pub fn negative_ranges(&self) -> (ranges: &[Range<usize>])
        ensures
            ranges@ == self.negative_ranges@,
    {
        self.negative_ranges.as_slice()
    }

    /// Get the width.
    pub fn width(&self) -> (width: usize)
        ensures
            width == self.source_grid.width,
    {
        self.source_grid.width
    }

    /// Get the height.
    pub fn height(&self) -> (height: usize)
        ensures
            height == self.source_grid.height,
    {
        self.source_grid.height
    }
}

/// Anything that can be turned into a mask.
pub trait Maskable: Sized {
    /// What has to hold of the value for the conversion to go through.
    spec fn mask_ready(&self) -> bool;

    /// The cells of the mask that the value turns into may hold.
    spec fn mask_cells(&self, cells: Seq<bool>) -> bool;

    fn as_mask(self) -> (mask: GridMask)
        requires
            self.mask_ready(),
        ensures
            mask.wf(),
            self.mask_cells(mask.source_grid@),
    ;
}

impl Maskable for GridMask {
    open spec fn mask_ready(&self) -> bool {
        self.wf()
    }

    open spec fn mask_cells(&self, cells: Seq<bool>) -> bool {
        cells == self.source_grid@
    }

    fn as_mask(self) -> (mask: GridMask)
        ensures
            mask == self,
    {
        self
    }
}

impl Maskable for Grid<bool> {
    open spec fn mask_ready(&self) -> bool {
        true
    }

    open spec fn mask_cells(&self, cells: Seq<bool>) -> bool {
        cells == self@
    }

    fn as_mask(self) -> (mask: GridMask)
        ensures
            mask.source_grid == self,
    {
        GridMask::new(self)
    }
}

impl<T: PartialEq, U: Fn(&T) -> bool> Maskable for (Grid<T>, U) {
    open spec fn mask_ready(&self) -> bool {
        forall|i: int| 0 <= i < self.0@.len() ==> call_requires(self.1, (&self.0@[i],))
    }

    open spec fn mask_cells(&self, cells: Seq<bool>) -> bool {
        &&& cells.len() == self.0@.len()
        &&& forall|i: int|
            0 <= i < self.0@.len() ==> call_ensures(self.1, (&self.0@[i],), #[trigger] cells[i])
    }

    fn as_mask(self) -> (mask: GridMask)
        ensures
            mask.source_grid.width == self.0.width,
            mask.source_grid.height == self.0.height,
    {
        self.0.create_mask(self.1)
    }
}

impl<T> Grid<T> {
    /// Return the data of self filtered by the mask.
    pub fn masked_data(&self, mask: &GridMask) -> (parts: Vec<&[T]>)
        requires
            mask.wf(),
            mask.source_grid@.len() == self@.len(),
        ensures
            parts@.len() == mask.positive_ranges@.len(),
            forall|k: int|
                0 <= k < parts@.len() ==> (#[trigger] parts@[k])@ == self@.subrange(
                    mask.positive_ranges@[k].start as int,
                    mask.positive_ranges@[k].end as int,
                ),
    {
        let mut parts: Vec<&[T]> = Vec::with_capacity(mask.positive_ranges.len());
        let mut index: usize = 0;
        while index < mask.positive_ranges.len()
            invariant
                mask.wf(),
                mask.source_grid@.len() == self@.len(),
                index <= mask.positive_ranges@.len(),
                parts@.len() == index,
                forall|k: int|
                    0 <= k < index ==> (#[trigger] parts@[k])@ == self@.subrange(
                        mask.positive_ranges@[k].start as int,
                        mask.positive_ranges@[k].end as int,
                    ),
            decreases mask.positive_ranges@.len() - index,
        {
            let start: usize = mask.positive_ranges[index].start;
            let end: usize = mask.positive_ranges[index].end;
            assert(is_run(mask.source_grid@, true, start as int, end as int));
            parts.push(vstd::slice::slice_subrange(self.data.as_slice(), start, end));
            index += 1;
        }
        parts
    }

    /// Create a mask based on which values pass the given function.
    pub fn create_mask<U: Fn(&T) -> bool>(&self, comparing_function: U) -> (mask: GridMask)
        requires
            forall|i: int| 0 <= i < self@.len() ==> call_requires(comparing_function, (&self@[i],)),
        ensures
            mask.wf(),
            mask.source_grid.width == self.width,
            mask.source_grid.height == self.height,
            mask.source_grid@.len() == self@.len(),
            forall|i: int|
                0 <= i < self@.len() ==> call_ensures(
                    comparing_function,
                    (&self@[i],),
                    #[trigger] mask.source_grid@[i],
                ),
    {
        GridMask::new(self.map_ref(comparing_function))
    }
}

impl<T: PartialEq> Grid<T> {
    /// Create a mask based on pixels that match the specific value.
    pub fn create_value_mask(&self, value: T) -> (mask: GridMask)
        ensures
            mask.wf(),
            mask.source_grid.width == self.width,
            mask.source_grid.height == self.height,
            mask.source_grid@.len() == self@.len(),
            T::obeys_eq_spec() ==> forall|i: int|
                0 <= i < self@.len() ==> #[trigger] mask.source_grid@[i] == self@[i].eq_spec(&value),
    {
        let mut cells: Vec<bool> = Vec::with_capacity(self.data.len());
        let mut index: usize = 0;
        while index < self.data.len()
            invariant
                index <= self@.len(),
                cells@.len() == index,
                T::obeys_eq_spec() ==> forall|i: int|
                    0 <= i < index ==> #[trigger] cells@[i] == self@[i].eq_spec(&value),
            decreases self@.len() - index,
        {
            cells.push(self.data[index] == value);
            index += 1;
        }
        GridMask::new(Grid::new(cells, self.width, self.height))
    }
}

impl<T: Default> Grid<T> {
    /// Apply a mask to self that sets all mismatches to default value.
    pub fn apply_mask(&mut self, mask: &GridMask)
        requires
            mask.wf(),
            old(self).width == mask.source_grid.width,
            old(self).height == mask.source_grid.height,
            old(self)@.len() == mask.source_grid@.len(),
        ensures
            final(self).width == old(self).width,
            final(self).height == old(self).height,
            final(self)@.len() == old(self)@.len(),
            forall|i: int|
                0 <= i < old(self)@.len() ==> if mask.source_grid@[i] {
                    #[trigger] final(self)@[i] == old(self)@[i]
                } else {
                    call_ensures(T::default, (), final(self)@[i])
                },
    {
        let ghost cells = mask.source_grid@;
        let ghost before = self@;
        let ghost ranges = mask.negative_ranges@;
        let mut range_index: usize = 0;
        let mut done: usize = 0;
        while range_index < mask.negative_ranges.len()
            invariant
                mask.wf(),
                cells == mask.source_grid@,
                ranges == mask.negative_ranges@,
                self.width == old(self).width,
                self.height == old(self).height,
                self@.len() == before.len(),
                before.len() == cells.len(),
                range_index <= ranges.len(),
                done <= cells.len(),
                range_index > 0 ==> done == ranges[range_index - 1].end,
                range_index == 0 ==> done == 0,
                forall|i: int| 0 <= i < before.len() && cells[i] ==> #[trigger] self@[i] == before[i],
                forall|i: int|
                    0 <= i < done && !cells[i] ==> call_ensures(T::default, (), #[trigger] self@[i]),
            decreases ranges.len() - range_index,
        {
            let start: usize = mask.negative_ranges[range_index].start;
            let end: usize = mask.negative_ranges[range_index].end;
            proof {
                assert(is_run(cells, false, start as int, end as int));
                lemma_no_run_between(cells, false, ranges, range_index as int);
            }
            let mut index: usize = start;
            while index < end
                invariant
                    self.width == old(self).width,
                    self.height == old(self).height,
                    self@.len() == before.len(),
                    before.len() == cells.len(),
                    is_run(cells, false, start as int, end as int),
                    start <= index <= end,
                    forall|i: int|
                        0 <= i < before.len() && cells[i] ==> #[trigger] self@[i] == before[i],
                    forall|i: int|
                        0 <= i < index && !cells[i] ==> call_ensures(
                            T::default,
                            (),
                            #[trigger] self@[i],
                        ),
                decreases end - index,
            {
                self.data[index] = T::default();
                index += 1;
            }
            done = end;
            range_index += 1;
        }
        proof {
            lemma_no_run_between(cells, false, ranges, ranges.len() as int);
        }
    }
}

impl<T: Default + Clone> Grid<T> {
    /// Return a version of self masked by the given mask.
    pub fn masked(&self, mask: &GridMask) -> (masked: Grid<T>)
        requires
            mask.wf(),
            self.width == mask.source_grid.width,
            self.height == mask.source_grid.height,
            self@.len() == mask.source_grid@.len(),
        ensures
            masked.width == self.width,
            masked.height == self.height,
            masked@.len() == self@.len(),
            forall|i: int|
                0 <= i < self@.len() ==> if mask.source_grid@[i] {
                    cloned(self@[i], #[trigger] masked@[i])
                } else {
                    call_ensures(T::default, (), masked@[i])
                },
    {
        let mut clone: Grid<T> = self.clone();
        clone.apply_mask(mask);
        clone
    }
}

impl<T: Default> Grid<T> {
    /// Create and apply a mask in one step: every cell that does not pass
    /// the given function is set to the default value.
    pub fn mask<U: Fn(&T) -> bool>(&mut self, comparing_function: U)
        requires
            forall|value: &T| call_requires(comparing_function, (value,)),
        ensures
            final(self).width == old(self).width,
            final(self).height == old(self).height,
            final(self)@.len() == old(self)@.len(),
            forall|i: int|
                0 <= i < old(self)@.len() ==> (#[trigger] final(self)@[i] == old(self)@[i]
                    && call_ensures(comparing_function, (&old(self)@[i],), true)) || (call_ensures(
                    T::default,
                    (),
                    final(self)@[i],
                ) && call_ensures(comparing_function, (&old(self)@[i],), false)),
    {
        let mut index: usize = 0;
        while index < self.data.len()
            invariant
                forall|value: &T| call_requires(comparing_function, (value,)),
                self.width == old(self).width,
                self.height == old(self).height,
                self@.len() == old(self)@.len(),
                index <= self@.len(),
                forall|i: int| index <= i < self@.len() ==> #[trigger] self@[i] == old(self)@[i],
                forall|i: int|
                    0 <= i < index ==> (#[trigger] self@[i] == old(self)@[i] && call_ensures(
                        comparing_function,
                        (&old(self)@[i],),
                        true,
                    )) || (call_ensures(T::default, (), self@[i]) && call_ensures(
                        comparing_function,
                        (&old(self)@[i],),
                        false,
                    )),
            decreases self@.len() - index,
        {
            if !comparing_function(&self.data[index]) {
                self.data[index] = T::default();
            }
            index += 1;
        }
    }
}

impl<T: Default + PartialEq> Grid<T> {
    /// Create and apply a mask in one step: every cell that differs from
    /// the value is set to the default value.
    pub fn value_mask(&mut self, value: T)
        ensures
            final(self).width == old(self).width,
            final(self).height == old(self).height,
            final(self)@.len() == old(self)@.len(),
            T::obeys_eq_spec() ==> forall|i: int|
                0 <= i < old(self)@.len() ==> if old(self)@[i].eq_spec(&value) {
                    #[trigger] final(self)@[i] == old(self)@[i]
                } else {
                    call_ensures(T::default, (), final(self)@[i])
                },
    {
        let mut index: usize = 0;
        while index < self.data.len()
            invariant
                self.width == old(self).width,
                self.height == old(self).height,
                self@.len() == old(self)@.len(),
                index <= self@.len(),
                forall|i: int| index <= i < self@.len() ==> #[trigger] self@[i] == old(self)@[i],
                T::obeys_eq_spec() ==> forall|i: int|
                    0 <= i < index ==> if old(self)@[i].eq_spec(&value) {
                        #[trigger] self@[i] == old(self)@[i]
                    } else {
                        call_ensures(T::default, (), self@[i])
                    },
            decreases self@.len() - index,
        {
            if self.data[index] != value {
                self.data[index] = T::default();
            }
            index += 1;
        }
    }
}

/// No cell holds `value` between the end of the run before the `k`-th and
/// the start of the `k`-th; behind the last run none holds it at all.
pub proof fn lemma_no_run_between(cells: Seq<bool>, value: bool, ranges: Seq<Range<usize>>, k: int)
    requires
        is_runs_of(cells, value, ranges),
        0 <= k <= ranges.len(),
    ensures
        forall|i: int|
            (if k > 0 {
                ranges[k - 1].end as int
            } else {
                0
            }) <= i < (if k < ranges.len() {
                ranges[k].start as int
            } else {
                cells.len() as int
            }) ==> #[trigger] cells[i] != value,
{
    reveal(in_ranges);
    let low = if k > 0 {
        ranges[k - 1].end as int
    } else {
        0
    };
    let high = if k < ranges.len() {
        ranges[k].start as int
    } else {
        cells.len() as int
    };
    assert forall|i: int| low <= i < high implies #[trigger] cells[i] != value by {
        if cells[i] == value {
            if k > 0 {
                assert(is_run(cells, value, ranges[k - 1].start as int, ranges[k - 1].end as int));
            }
            assert(in_ranges(ranges, i));
            let j = choose|j: int|
                0 <= j < ranges.len() && (#[trigger] ranges[j]).start <= i < ranges[j].end;
            if j < k - 1 {
                assert(ranges[j].end < ranges[k - 1].start);
            } else if j > k {
                assert(ranges[k].end < ranges[j].start);
                assert(is_run(cells, value, ranges[k].start as int, ranges[k].end as int));
            }
        }
    }
}

/// Closing the run that starts at `start` with the cell `end` adds it to the
/// runs of its value.
pub proof fn lemma_push_run(cells: Seq<bool>, value: bool, ranges: Seq<Range<usize>>, start: int, end: int)
    requires
        runs_upto(cells, value, ranges, start),
        is_run(cells, value, start, end),
        end <= usize::MAX,
    ensures
        runs_upto(cells, value, ranges.push(start as usize..end as usize), end),
{
    reveal(in_ranges);
    let run: Range<usize> = start as usize..end as usize;
    let pushed = ranges.push(run);
    assert forall|j: int, k: int| 0 <= j < k < pushed.len() implies (#[trigger] pushed[j]).end < (
    #[trigger] pushed[k]).start by {
        if k == ranges.len() {
            assert(is_run(cells, value, ranges[j].start as int, ranges[j].end as int));
            if ranges[j].end == start {
                assert(cells[start - 1] == value);
            }
        }
    }
    assert forall|i: int| 0 <= i < end && #[trigger] cells[i] == value implies in_ranges(pushed, i) by {
        if i < start {
            assert(in_ranges(ranges, i));
            let k = choose|k: int|
                0 <= k < ranges.len() && (#[trigger] ranges[k]).start <= i < ranges[k].end;
            assert(pushed[k] == ranges[k]);
        } else {
            assert(pushed[ranges.len() as int] == run);
        }
    }
}

/// A run of the other value between `start` and `end` leaves the runs of
/// `value` as they are.
pub proof fn lemma_skip_run(cells: Seq<bool>, value: bool, ranges: Seq<Range<usize>>, start: int, end: int)
    requires
        runs_upto(cells, value, ranges, start),
        is_run(cells, !value, start, end),
    ensures
        runs_upto(cells, value, ranges, end),
{
}

} // verus!
