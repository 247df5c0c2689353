use vstd::prelude::*;
use vstd::std_specs::cmp::PartialEqSpec;
use crate::counting::count_true;
use crate::counting::lemma_count_clear;
use crate::counting::lemma_count_set;
use crate::counting::lemma_count_step;
use crate::counting::lemma_count_stretch;
use crate::errors::GridError;
use crate::grid::Grid;
use crate::indexer::lemma_index_round_trip;
use crate::indexer::linear_index;
use crate::masks::GridMask;
use crate::masks::is_run;
use crate::masks::lemma_no_run_between;

verus! {

/// For each cell whether it counts in a comparison: every cell does when
/// there is no mask, the cells that the mask holds `true` for otherwise.
pub open spec fn compared_flags(len: nat, mask: Option<Seq<bool>>) -> Seq<bool> {
    Seq::new(
        len,
        |i: int|
            match mask {
                Some(cells) => cells[i],
                None => true,
            },
    )
}

/// For each cell whether it counts in a comparison and is equal in both
/// grids.
pub open spec fn match_flags<T: PartialEq>(left: Seq<T>, right: Seq<T>, mask: Option<Seq<bool>>) -> Seq<
    bool,
> {
    Seq::new(left.len(), |i: int| compared_flags(left.len(), mask)[i] && left[i].eq_spec(&right[i]))
}

/// For each cell whether it counts in a comparison and differs between the
/// grids.
pub open spec fn mismatch_flags<T: PartialEq>(
    left: Seq<T>,
    right: Seq<T>,
    mask: Option<Seq<bool>>,
) -> Seq<bool> {
    Seq::new(
        left.len(),
        |i: int| compared_flags(left.len(), mask)[i] && !left[i].eq_spec(&right[i]),
    )
}

/// How alike two grids of one size are: how many of the compared cells are
/// equal, out of how many compared.
#[derive(Debug, Clone, Copy, PartialEq, Eq, Structural)]
pub struct Similarity {
    pub matches: usize,
    pub compared: usize,
}

/// Two grids, and a mask if there is one, have the same width, height and
/// length of data.
pub open spec fn comparable<T>(left: &Grid<T>, right: &Grid<T>, mask: Option<&GridMask>) -> bool {
    &&& left.width == right.width
    &&& left.height == right.height
    &&& left@.len() == right@.len()
    &&& match mask {
        Some(mask) => left.width == mask.source_grid.width && left.height
            == mask.source_grid.height,
        None => true,
    }
}

impl<T: PartialEq> Grid<T> {
    /// Validate that this grid is comparable to the other. Returns an error if something is wrong.
    pub fn validate_comparable_grids(&self, other: &Grid<T>, mask: Option<&GridMask>) -> (result:
        Result<(), GridError>)
        ensures
            result is Ok <==> comparable(self, other, mask),
            result is Err ==> (result == Err::<(), GridError>(GridError::DimensionMismatch) <==> !comparable(
                self,
                other,
                None,
            )),
            result is Err ==> (result == Err::<(), GridError>(GridError::MaskMismatch) <==> comparable(
                self,
                other,
                None,
            )),
    {
        if self.width != other.width || self.height != other.height {
            return Err(GridError::DimensionMismatch);
        }
        if self.data.len() != other.data.len() {
            return Err(GridError::DimensionMismatch);
        }
        if let Some(mask) = mask {
            if self.width != mask.width() || self.height != mask.height() {
                return Err(GridError::MaskMismatch);
            }
        }
        Ok(())
    }

    /// Compare this grid to another. Returns 'true' if the grids are of one
    /// size and differ in at most the given number of cells. Stops at the
    /// first mismatch too many.
    pub fn similar_to(&self, other: &Grid<T>, max_mismatches: usize) -> (similar: bool)
        ensures
            !comparable(self, other, None) ==> !similar,
            T::obeys_eq_spec() && comparable(self, other, None) ==> (similar <==> count_true(
                mismatch_flags(self@, other@, None),
            ) <= max_mismatches),
    {
        if self.validate_comparable_grids(other, None).is_err() {
            return false;
        }
        let ghost flags = mismatch_flags(self@, other@, None);
        let mut mismatches: usize = 0;
        let mut index: usize = 0;
        proof {
            assert(count_true(flags.take(0)) == 0);
        }
        while index < self.data.len()
            invariant
                self@.len() == other@.len(),
                flags == mismatch_flags(self@, other@, None),
                index <= self@.len(),
                mismatches <= max_mismatches,
                mismatches <= index,
                T::obeys_eq_spec() ==> mismatches == count_true(flags.take(index as int)),
            decreases self@.len() - index,
        {
            proof {
                lemma_count_step(flags, index as int);
            }
            if self.data[index] != other.data[index] {
                if mismatches >= max_mismatches {
                    proof {
                        lemma_count_stretch(flags, index + 1, flags.len() as int);
                        assert(flags.take(flags.len() as int) == flags);
                    }
                    return false;
                }
                mismatches += 1;
            }
            index += 1;
        }
        proof {
            assert(flags.take(flags.len() as int) == flags);
        }
        true
    }

    /// Compare this grid to another. Returns how many cells are equal and
    /// how many there are; fails when the grids are not of one size.
    pub fn similarity_to(&self, other: &Grid<T>) -> (result: Result<Similarity, GridError>)
        ensures
            result is Ok <==> comparable(self, other, None),
            result is Err ==> result == Err::<Similarity, GridError>(GridError::DimensionMismatch),
            result matches Ok(similarity) ==> similarity.matches <= similarity.compared
                && similarity.compared == self@.len() && (T::obeys_eq_spec() ==> similarity.matches
                == count_true(match_flags(self@, other@, None))),
    {
        if self.validate_comparable_grids(other, None).is_err() {
            return Err(GridError::DimensionMismatch);
        }
        let ghost flags = match_flags(self@, other@, None);
        let mut matches: usize = 0;
        let mut index: usize = 0;
        proof {
            assert(count_true(flags.take(0)) == 0);
        }
        while index < self.data.len()
            invariant
                self@.len() == other@.len(),
                flags == match_flags(self@, other@, None),
                index <= self@.len(),
                matches <= index,
                T::obeys_eq_spec() ==> matches == count_true(flags.take(index as int)),
            decreases self@.len() - index,
        {
            proof {
                lemma_count_step(flags, index as int);
            }
            if self.data[index] == other.data[index] {
                matches += 1;
            }
            index += 1;
        }
        proof {
            assert(flags.take(flags.len() as int) == flags);
        }
        Ok(Similarity { matches, compared: self.data.len() })
    }
}


impl<T: PartialEq> Grid<T> {
    /// Compare this grid to another. Only compare the pixels matching the given mask. Returns 'true' if the grids and the mask are of one size and the grids differ in at most the given number of the compared cells.
    pub fn similar_to_masked(&self, other: &Grid<T>, max_mismatches: usize, mask: &GridMask) -> (similar:
        bool)
        requires
            mask.wf(),
        ensures
            !comparable(self, other, Some(mask)) || mask.source_grid@.len() != self@.len()
                ==> !similar,
            T::obeys_eq_spec() && comparable(self, other, Some(mask)) && mask.source_grid@.len()
                == self@.len() ==> (similar <==> count_true(
                mismatch_flags(self@, other@, Some(mask.source_grid@)),
            ) <= max_mismatches),
    {
        if self.validate_comparable_grids(other, Some(mask)).is_err() || mask.grid().len()
            != self.data.len() {
            return false;
        }
        let ghost cells = mask.source_grid@;
        let ghost ranges = mask.positive_ranges@;
        let ghost flags = mismatch_flags(self@, other@, Some(cells));
        let mut mismatches: usize = 0;
        let mut range_index: usize = 0;
        let mut done: usize = 0;
        proof {
            assert(count_true(flags.take(0)) == 0);
        }
        while range_index < mask.positive_ranges.len()
            invariant
                mask.wf(),
                cells == mask.source_grid@,
                ranges == mask.positive_ranges@,
                flags == mismatch_flags(self@, other@, Some(cells)),
                self@.len() == other@.len(),
                self@.len() == cells.len(),
                range_index <= ranges.len(),
                done <= cells.len(),
                range_index > 0 ==> done == ranges[range_index - 1].end,
                range_index == 0 ==> done == 0,
                mismatches <= max_mismatches,
                T::obeys_eq_spec() ==> mismatches == count_true(flags.take(done as int)),
            decreases ranges.len() - range_index,
        {
            let start: usize = mask.positive_ranges[range_index].start;
            let end: usize = mask.positive_ranges[range_index].end;
            proof {
                assert(is_run(cells, true, start as int, end as int));
                lemma_no_run_between(cells, true, ranges, range_index as int);
                assert forall|i: int| done <= i < start implies !flags[i] by {
                    assert(!cells[i]);
                }
                lemma_count_clear(flags, done as int, start as int);
            }
            let mut index: usize = start;
            while index < end
                invariant
                    cells == mask.source_grid@,
                    flags == mismatch_flags(self@, other@, Some(cells)),
                    self@.len() == other@.len(),
                    self@.len() == cells.len(),
                    is_run(cells, true, start as int, end as int),
                    start <= index <= end,
                    mismatches <= max_mismatches,
                    T::obeys_eq_spec() ==> mismatches == count_true(flags.take(index as int)),
                decreases end - index,
            {
                proof {
                    lemma_count_step(flags, index as int);
                }
                assert(cells[index as int]);
                if self.data[index] != other.data[index] {
                    if mismatches >= max_mismatches {
                        proof {
                            lemma_count_stretch(flags, index + 1, flags.len() as int);
                            assert(flags.take(flags.len() as int) == flags);
                        }
                        return false;
                    }
                    mismatches += 1;
                }
                index += 1;
            }
            done = end;
            range_index += 1;
        }
        proof {
            lemma_no_run_between(cells, true, ranges, ranges.len() as int);
            assert forall|i: int| done <= i < flags.len() implies !flags[i] by {
                assert(!cells[i]);
            }
            lemma_count_clear(flags, done as int, flags.len() as int);
            assert(flags.take(flags.len() as int) == flags);
        }
        true
    }

    /// Compare this grid to another. Only compare the pixels matching the given mask. Returns how many of the compared cells are equal and how many are compared; fails when the grids and the mask are not of one size.
    pub fn similarity_to_masked(&self, other: &Grid<T>, mask: &GridMask) -> (result: Result<
        Similarity,
        GridError,
    >)
        requires
            mask.wf(),
        ensures
            result is Ok <==> comparable(self, other, Some(mask)) && mask.source_grid@.len()
                == self@.len(),
            result matches Err(error) ==> error == if comparable(self, other, None) {
                GridError::MaskMismatch
            } else {
                GridError::DimensionMismatch
            },
            result matches Ok(similarity) ==> similarity.matches <= similarity.compared
                && similarity.compared == count_true(
                compared_flags(self@.len(), Some(mask.source_grid@)),
            ) && (T::obeys_eq_spec() ==> similarity.matches == count_true(
                match_flags(self@, other@, Some(mask.source_grid@)),
            )),
    {
        match self.validate_comparable_grids(other, Some(mask)) {
            Err(error) => {
                return Err(error);
            },
            Ok(_) => {},
        }
        if mask.grid().len() != self.data.len() {
            return Err(GridError::MaskMismatch);
        }
        let ghost cells = mask.source_grid@;
        let ghost ranges = mask.positive_ranges@;
        let ghost flags = match_flags(self@, other@, Some(cells));
        let ghost counted = compared_flags(self@.len(), Some(cells));
        let mut matches: usize = 0;
        let mut compared: usize = 0;
        let mut range_index: usize = 0;
        let mut done: usize = 0;
        proof {
            assert(count_true(flags.take(0)) == 0);
            assert(count_true(counted.take(0)) == 0);
        }
        while range_index < mask.positive_ranges.len()
            invariant
                mask.wf(),
                cells == mask.source_grid@,
                ranges == mask.positive_ranges@,
                flags == match_flags(self@, other@, Some(cells)),
                counted == compared_flags(self@.len(), Some(cells)),
                self@.len() == other@.len(),
                self@.len() == cells.len(),
                range_index <= ranges.len(),
                done <= cells.len(),
                range_index > 0 ==> done == ranges[range_index - 1].end,
                range_index == 0 ==> done == 0,
                matches <= compared <= done,
                compared == count_true(counted.take(done as int)),
                T::obeys_eq_spec() ==> matches == count_true(flags.take(done as int)),
            decreases ranges.len() - range_index,
        {
            let start: usize = mask.positive_ranges[range_index].start;
            let end: usize = mask.positive_ranges[range_index].end;
            proof {
                assert(is_run(cells, true, start as int, end as int));
                lemma_no_run_between(cells, true, ranges, range_index as int);
                assert forall|i: int| done <= i < start implies !flags[i] && !counted[i] by {
                    assert(!cells[i]);
                }
                assert forall|i: int| start <= i < end implies counted[i] by {
                    assert(cells[i]);
                }
                lemma_count_clear(flags, done as int, start as int);
                lemma_count_clear(counted, done as int, start as int);
                lemma_count_set(counted, start as int, end as int);
            }
            compared = compared + (end - start);
            let ghost matches_before = matches;
            let mut index: usize = start;
            while index < end
                invariant
                    flags == match_flags(self@, other@, Some(cells)),
                    self@.len() == other@.len(),
                    self@.len() == cells.len(),
                    is_run(cells, true, start as int, end as int),
                    start <= index <= end,
                    matches <= matches_before + (index - start),
                    matches_before <= start,
                    T::obeys_eq_spec() ==> matches == count_true(flags.take(index as int)),
                decreases end - index,
            {
                proof {
                    lemma_count_step(flags, index as int);
                }
                assert(cells[index as int]);
                if self.data[index] == other.data[index] {
                    matches += 1;
                }
                index += 1;
            }
            done = end;
            range_index += 1;
        }
        proof {
            lemma_no_run_between(cells, true, ranges, ranges.len() as int);
            assert forall|i: int| done <= i < flags.len() implies !flags[i] && !counted[i] by {
                assert(!cells[i]);
            }
            lemma_count_clear(flags, done as int, flags.len() as int);
            lemma_count_clear(counted, done as int, counted.len() as int);
            assert(flags.take(flags.len() as int) == flags);
            assert(counted.take(counted.len() as int) == counted);
        }
        Ok(Similarity { matches, compared })
    }
}

/// For each cell of the needle whether it counts in a comparison and differs
/// from the cell of the haystack below it, when the needle's top left corner
/// lies at column `x` and row `y` of the haystack.
pub open spec fn window_mismatch_flags<T: PartialEq>(
    hay: Seq<T>,
    hay_width: int,
    needle: Seq<T>,
    needle_width: int,
    mask: Option<Seq<bool>>,
    x: int,
    y: int,
) -> Seq<bool> {
    Seq::new(
        needle.len(),
        |j: int|
            compared_flags(needle.len(), mask)[j] && !hay[linear_index(
                hay_width,
                x + j % needle_width,
                y + j / needle_width,
            )].eq_spec(&needle[j]),
    )
}

/// The needle fits into the haystack with its top left corner at column `x`
/// and row `y`.
pub open spec fn is_candidate<T>(hay: &Grid<T>, needle: &Grid<T>, x: int, y: int) -> bool {
    &&& 0 <= x
    &&& x + needle.width <= hay.width
    &&& 0 <= y
    &&& y + needle.height <= hay.height
}

/// The needle fits at the position and differs there from the haystack in
/// at most `max_mismatches` of the compared cells.
pub open spec fn found_at<T: PartialEq>(
    hay: &Grid<T>,
    needle: &Grid<T>,
    mask: Option<Seq<bool>>,
    max_mismatches: int,
    x: int,
    y: int,
) -> bool {
    &&& is_candidate(hay, needle, x, y)
    &&& count_true(
        window_mismatch_flags(hay@, hay.width as int, needle@, needle.width as int, mask, x, y),
    ) <= max_mismatches
}

/// The first position comes before the second, or is the same, when the
/// positions are visited row by row from the top and from left to right in
/// each row.
pub open spec fn scan_le(x0: int, y0: int, x: int, y: int) -> bool {
    y0 < y || (y0 == y && x0 <= x)
}

/// Where a scan that is told to start at column `x` of row `y` starts: a
/// column behind the last one where the needle fits is carried over to the
/// next row, less a whole width where it lies behind the haystack.
pub open spec fn scan_start(x: int, y: int, width: int, end_x: int, end_y: int) -> (int, int)
    decreases end_y - y,
{
    if x > end_x && y < end_y {
        scan_start(
            if x >= width {
                x - width
            } else {
                0
            },
            y + 1,
            width,
            end_x,
            end_y,
        )
    } else {
        (x, y)
    }
}

/// The position is the first at or behind the start of the scan where the
/// needle is found, or there is none and the position is `None`.
pub open spec fn is_first_found<T: PartialEq>(
    hay: &Grid<T>,
    needle: &Grid<T>,
    mask: Option<Seq<bool>>,
    max_mismatches: int,
    start: (int, int),
    position: Option<[usize; 2]>,
) -> bool {
    match position {
        Some(p) => {
            &&& found_at(hay, needle, mask, max_mismatches, p[0] as int, p[1] as int)
            &&& scan_le(start.0, start.1, p[0] as int, p[1] as int)
            &&& forall|x: int, y: int|
                scan_le(start.0, start.1, x, y) && scan_le(x, y, p[0] as int, p[1] as int) && (x, y)
                    != (p[0] as int, p[1] as int) ==> !#[trigger] found_at(
                    hay,
                    needle,
                    mask,
                    max_mismatches,
                    x,
                    y,
                )
        },
        None => forall|x: int, y: int|
            scan_le(start.0, start.1, x, y) ==> !#[trigger] found_at(
                hay,
                needle,
                mask,
                max_mismatches,
                x,
                y,
            ),
    }
}

/// The positions are all the places where the needle is found, each once,
/// in the order of the scan.
pub open spec fn is_all_found<T: PartialEq>(
    hay: &Grid<T>,
    needle: &Grid<T>,
    mask: Option<Seq<bool>>,
    max_mismatches: int,
    positions: Seq<[usize; 2]>,
) -> bool {
    &&& forall|k: int|
        0 <= k < positions.len() ==> found_at(
            hay,
            needle,
            mask,
            max_mismatches,
            (#[trigger] positions[k])[0] as int,
            positions[k][1] as int,
        )
    &&& forall|j: int, k: int|
        0 <= j < k < positions.len() ==> scan_le(
            (#[trigger] positions[j])[0] as int,
            positions[j][1] as int,
            (#[trigger] positions[k])[0] as int,
            positions[k][1] as int,
        ) && positions[j] != positions[k]
    &&& forall|x: int, y: int| #[trigger]
        found_at(hay, needle, mask, max_mismatches, x, y) ==> exists|k: int|
            0 <= k < positions.len() && (#[trigger] positions[k])[0] == x && positions[k][1] == y
}

/// The mask cells of an optional mask grid.
pub open spec fn mask_cells(mask: Option<&Grid<bool>>) -> Option<Seq<bool>> {
    match mask {
        Some(grid) => Some(grid@),
        None => None,
    }
}

impl<T: PartialEq> Grid<T> {
    /// Validate that this grid can be used to find the other in. Returns an error if something is wrong.
    pub fn validate_findable_grids(&self, other: &Grid<T>, mask: Option<&GridMask>) -> (result: Result<
        (),
        GridError,
    >)
        ensures
            match result {
                Ok(_) => self.width >= other.width && self.height >= other.height && (mask matches Some(
                    mask,
                ) ==> other.width == mask.source_grid.width && other.height
                    == mask.source_grid.height),
                Err(error) => if self.width < other.width || self.height < other.height {
                    error == GridError::NeedleTooLarge
                } else {
                    &&& error == GridError::MaskMismatch
                    &&& mask matches Some(mask)
                    &&& (other.width != mask.source_grid.width || other.height
                        != mask.source_grid.height)
                },
            },
    {
        if self.width < other.width || self.height < other.height {
            return Err(GridError::NeedleTooLarge);
        }
        if let Some(mask) = mask {
            if other.width != mask.width() || other.height != mask.height() {
                return Err(GridError::MaskMismatch);
            }
        }
        Ok(())
    }

    /// Check if a sub-grid lies at a position of self, with at most the
    /// given number of the compared cells differing. Where there is a mask,
    /// only the cells it holds `true` for are compared.
    fn window_within_budget(
        &self,
        sub_grid: &Grid<T>,
        mask_grid: Option<&Grid<bool>>,
        max_allowed_mismatches: usize,
        position: [usize; 2],
    ) -> (found: bool)
        requires
            self.wf(),
            sub_grid.wf(),
            is_candidate(self, sub_grid, position[0] as int, position[1] as int),
            mask_grid matches Some(grid) ==> grid@.len() == sub_grid@.len(),
        ensures
            T::obeys_eq_spec() ==> (found <==> found_at(
                self,
                sub_grid,
                mask_cells(mask_grid),
                max_allowed_mismatches as int,
                position[0] as int,
                position[1] as int,
            )),
    {
        let ghost flags = window_mismatch_flags(
            self@,
            self.width as int,
            sub_grid@,
            sub_grid.width as int,
            mask_cells(mask_grid),
            position[0] as int,
            position[1] as int,
        );
        assert(self.data.len() == self@.len());
        assert(sub_grid.data.len() == sub_grid@.len());
        let mut mismatches: usize = 0;
        let mut sub_y: usize = 0;
        proof {
            assert(count_true(flags.take(0)) == 0);
            assert(0 * sub_grid.width == 0) by (nonlinear_arith);
        }
        while sub_y < sub_grid.height
            invariant
                self.wf(),
                sub_grid.wf(),
                self@.len() <= usize::MAX,
                sub_grid@.len() <= usize::MAX,
                is_candidate(self, sub_grid, position[0] as int, position[1] as int),
                mask_grid matches Some(grid) ==> grid@.len() == sub_grid@.len(),
                flags == window_mismatch_flags(
                    self@,
                    self.width as int,
                    sub_grid@,
                    sub_grid.width as int,
                    mask_cells(mask_grid),
                    position[0] as int,
                    position[1] as int,
                ),
                sub_y <= sub_grid.height,
                sub_y * sub_grid.width <= sub_grid@.len(),
                mismatches <= max_allowed_mismatches,
                T::obeys_eq_spec() ==> mismatches == count_true(
                    flags.take(sub_y * sub_grid.width),
                ),
            decreases sub_grid.height - sub_y,
        {
            let sub_row_start: usize = sub_y * sub_grid.width;
            if sub_grid.width > 0 {
                proof {
                    lemma_index_round_trip(
                        self.width as int,
                        self.height as int,
                        position[0] as int,
                        position[1] + sub_y,
                    );
                }
                let self_row_start: usize = (position[1] + sub_y) * self.width + position[0];
                let mut sub_x: usize = 0;
                while sub_x < sub_grid.width
                    invariant
                        self.wf(),
                        sub_grid.wf(),
                        self@.len() <= usize::MAX,
                        sub_grid@.len() <= usize::MAX,
                        is_candidate(self, sub_grid, position[0] as int, position[1] as int),
                        mask_grid matches Some(grid) ==> grid@.len() == sub_grid@.len(),
                        flags == window_mismatch_flags(
                            self@,
                            self.width as int,
                            sub_grid@,
                            sub_grid.width as int,
                            mask_cells(mask_grid),
                            position[0] as int,
                            position[1] as int,
                        ),
                        sub_y < sub_grid.height,
                        sub_x <= sub_grid.width,
                        sub_row_start == sub_y * sub_grid.width,
                        self_row_start == linear_index(
                            self.width as int,
                            position[0] as int,
                            position[1] + sub_y,
                        ),
                        mismatches <= max_allowed_mismatches,
                        T::obeys_eq_spec() ==> mismatches == count_true(
                            flags.take(sub_row_start + sub_x),
                        ),
                    decreases sub_grid.width - sub_x,
                {
                    proof {
                        lemma_index_round_trip(
                            sub_grid.width as int,
                            sub_grid.height as int,
                            sub_x as int,
                            sub_y as int,
                        );
                        lemma_index_round_trip(
                            self.width as int,
                            self.height as int,
                            position[0] + sub_x,
                            position[1] + sub_y,
                        );
                        lemma_count_step(flags, sub_row_start + sub_x);
                    }
                    let sub_index: usize = sub_row_start + sub_x;
                    let compared: bool = match mask_grid {
                        Some(grid) => grid.data[sub_index],
                        None => true,
                    };
                    if compared && self.data[self_row_start + sub_x] != sub_grid.data[sub_index] {
                        if mismatches >= max_allowed_mismatches {
                            proof {
                                lemma_count_stretch(flags, sub_index + 1, flags.len() as int);
                                assert(flags.take(flags.len() as int) == flags);
                            }
                            return false;
                        }
                        mismatches += 1;
                    }
                    sub_x += 1;
                }
            }
            proof {
                assert((sub_y + 1) * sub_grid.width == sub_y * sub_grid.width + sub_grid.width)
                    by (nonlinear_arith);
                assert((sub_y + 1) * sub_grid.width <= sub_grid.width * sub_grid.height)
                    by (nonlinear_arith)
                    requires
                        sub_y < sub_grid.height,
                ;
            }
            sub_y += 1;
        }
        proof {
            assert(sub_y * sub_grid.width == sub_grid@.len()) by (nonlinear_arith)
                requires
                    sub_y == sub_grid.height,
                    sub_grid@.len() == sub_grid.width * sub_grid.height,
            ;
            assert(flags.take(flags.len() as int) == flags);
        }
        true
    }

    /// Check if a sub-grid is at a specific position in self.
    pub fn find_at_position(
        &self,
        sub_grid: &Grid<T>,
        max_allowed_mismatches: usize,
        position: [usize; 2],
    ) -> (found: bool)
        requires
            self.wf(),
            sub_grid.wf(),
            is_candidate(self, sub_grid, position[0] as int, position[1] as int),
        ensures
            T::obeys_eq_spec() ==> (found <==> found_at(
                self,
                sub_grid,
                None,
                max_allowed_mismatches as int,
                position[0] as int,
                position[1] as int,
            )),
    {
        self.window_within_budget(sub_grid, None, max_allowed_mismatches, position)
    }

    /// Check if a sub-grid is at a specific position in self. Only count pixels matching the mask.
    pub fn find_at_position_masked(
        &self,
        sub_grid: &Grid<T>,
        mask_grid: &Grid<bool>,
        max_allowed_mismatches: usize,
        position: [usize; 2],
    ) -> (found: bool)
        requires
            self.wf(),
            sub_grid.wf(),
            is_candidate(self, sub_grid, position[0] as int, position[1] as int),
            mask_grid@.len() == sub_grid@.len(),
        ensures
            T::obeys_eq_spec() ==> (found <==> found_at(
                self,
                sub_grid,
                Some(mask_grid@),
                max_allowed_mismatches as int,
                position[0] as int,
                position[1] as int,
            )),
    {
        self.window_within_budget(sub_grid, Some(mask_grid), max_allowed_mismatches, position)
    }
}


/// The number of columns and of rows where the needle may be put, each plus
/// one, fit the machine's integers.
pub open spec fn scan_fits<T>(hay: &Grid<T>, needle: &Grid<T>) -> bool {
    &&& hay.width >= needle.width ==> hay.width - needle.width < usize::MAX
    &&& hay.height >= needle.height ==> hay.height - needle.height < usize::MAX
}

/// How many positions a scan that stands at column `x` of row `y` may still
/// visit.
pub open spec fn scan_left(x: int, y: int, end_x: int, end_y: int) -> int {
    if y < end_y {
        (end_y - y) * (end_x + 1) + (end_x + 1 - x)
    } else {
        0
    }
}

impl<T: PartialEq> Grid<T> {
    /// The scan for a sub-grid from a position on, with a mask or without.
    fn scan_from(
        &self,
        sub_grid: &Grid<T>,
        mask_grid: Option<&Grid<bool>>,
        max_allowed_mismatches: usize,
        position: [usize; 2],
    ) -> (found: Option<[usize; 2]>)
        requires
            self.wf(),
            sub_grid.wf(),
            scan_fits(self, sub_grid),
            mask_grid matches Some(grid) ==> grid@.len() == sub_grid@.len(),
        ensures
            self.width < sub_grid.width || self.height < sub_grid.height ==> found is None,
            found matches Some(p) ==> is_candidate(self, sub_grid, p[0] as int, p[1] as int)
                && scan_le(
                scan_start(
                    position[0] as int,
                    position[1] as int,
                    self.width as int,
                    self.width - sub_grid.width + 1,
                    self.height - sub_grid.height + 1,
                ).0,
                scan_start(
                    position[0] as int,
                    position[1] as int,
                    self.width as int,
                    self.width - sub_grid.width + 1,
                    self.height - sub_grid.height + 1,
                ).1,
                p[0] as int,
                p[1] as int,
            ),
            T::obeys_eq_spec() ==> is_first_found(
                self,
                sub_grid,
                mask_cells(mask_grid),
                max_allowed_mismatches as int,
                scan_start(
                    position[0] as int,
                    position[1] as int,
                    self.width as int,
                    self.width - sub_grid.width + 1,
                    self.height - sub_grid.height + 1,
                ),
                found,
            ),
    {
        if self.validate_findable_grids(sub_grid, None).is_err() {
            return None;
        }
        let ghost mask = mask_cells(mask_grid);
        let ghost max = max_allowed_mismatches as int;
        let last_x: usize = self.width - sub_grid.width;
        let last_y: usize = self.height - sub_grid.height;
        let ghost end_x = last_x + 1;
        let ghost end_y = last_y + 1;
        let ghost start = scan_start(
            position[0] as int,
            position[1] as int,
            self.width as int,
            end_x,
            end_y,
        );
        let mut origin_x: usize = position[0];
        let mut origin_y: usize = position[1];
        while origin_x > last_x + 1 && origin_y <= last_y
            invariant
                last_x < usize::MAX,
                last_y < usize::MAX,
                end_x == last_x + 1,
                end_y == last_y + 1,
                scan_start(origin_x as int, origin_y as int, self.width as int, end_x, end_y)
                    == start,
            decreases end_y - origin_y,
        {
            if origin_x >= self.width {
                origin_x -= self.width;
            } else {
                origin_x = 0;
            }
            origin_y += 1;
        }
        assert(start == (origin_x as int, origin_y as int));
        while origin_y <= last_y
            invariant
                self.wf(),
                sub_grid.wf(),
                mask_grid matches Some(grid) ==> grid@.len() == sub_grid@.len(),
                mask == mask_cells(mask_grid),
                max == max_allowed_mismatches,
                last_x == self.width - sub_grid.width,
                last_y == self.height - sub_grid.height,
                last_x < usize::MAX,
                last_y < usize::MAX,
                start == scan_start(
                    position[0] as int,
                    position[1] as int,
                    self.width as int,
                    last_x + 1,
                    last_y + 1,
                ),
                scan_le(start.0, start.1, origin_x as int, origin_y as int),
                T::obeys_eq_spec() ==> forall|x: int, y: int|
                    scan_le(start.0, start.1, x, y) && scan_le(x, y, origin_x as int, origin_y as int)
                        && (x, y) != (origin_x as int, origin_y as int) ==> !#[trigger] found_at(
                        self,
                        sub_grid,
                        mask,
                        max,
                        x,
                        y,
                    ),
            decreases last_y + 1 - origin_y,
        {
            while origin_x <= last_x
                invariant
                    self.wf(),
                    sub_grid.wf(),
                    mask_grid matches Some(grid) ==> grid@.len() == sub_grid@.len(),
                    mask == mask_cells(mask_grid),
                    max == max_allowed_mismatches,
                    last_x == self.width - sub_grid.width,
                    last_y == self.height - sub_grid.height,
                    last_x < usize::MAX,
                    last_y < usize::MAX,
                    start == scan_start(
                        position[0] as int,
                        position[1] as int,
                        self.width as int,
                        last_x + 1,
                        last_y + 1,
                    ),
                    origin_y <= last_y,
                    scan_le(start.0, start.1, origin_x as int, origin_y as int),
                    T::obeys_eq_spec() ==> forall|x: int, y: int|
                        scan_le(start.0, start.1, x, y) && scan_le(
                            x,
                            y,
                            origin_x as int,
                            origin_y as int,
                        ) && (x, y) != (origin_x as int, origin_y as int) ==> !#[trigger] found_at(
                            self,
                            sub_grid,
                            mask,
                            max,
                            x,
                            y,
                        ),
                decreases last_x + 1 - origin_x,
            {
                if self.window_within_budget(
                    sub_grid,
                    mask_grid,
                    max_allowed_mismatches,
                    [origin_x, origin_y],
                ) {
                    return Some([origin_x, origin_y]);
                }
                origin_x += 1;
            }
            origin_x = 0;
            origin_y += 1;
        }
        None
    }

    /// Find the given sub-grid in self. Returns the topleft coordinates of the first position where at most the given number of cells differ. Starts at the given position.
    pub fn find_starting_at_position(
        &self,
        sub_grid: &Grid<T>,
        max_allowed_mismatches: usize,
        position: [usize; 2],
    ) -> (found: Option<[usize; 2]>)
        requires
            self.wf(),
            sub_grid.wf(),
            scan_fits(self, sub_grid),
        ensures
            self.width < sub_grid.width || self.height < sub_grid.height ==> found is None,
            T::obeys_eq_spec() ==> is_first_found(
                self,
                sub_grid,
                None,
                max_allowed_mismatches as int,
                scan_start(
                    position[0] as int,
                    position[1] as int,
                    self.width as int,
                    self.width - sub_grid.width + 1,
                    self.height - sub_grid.height + 1,
                ),
                found,
            ),
    {
        self.scan_from(sub_grid, None, max_allowed_mismatches, position)
    }

    /// Find the given sub-grid in self. Returns the topleft coordinates of the first position where at most the given number of cells differ, only matching the positive pixels of the given mask. Starts at the given position.
    pub fn find_starting_at_position_masked(
        &self,
        sub_grid: &Grid<T>,
        mask: &GridMask,
        max_allowed_mismatches: usize,
        position: [usize; 2],
    ) -> (found: Option<[usize; 2]>)
        requires
            self.wf(),
            sub_grid.wf(),
            scan_fits(self, sub_grid),
            mask.source_grid@.len() == sub_grid@.len(),
        ensures
            self.width < sub_grid.width || self.height < sub_grid.height ==> found is None,
            T::obeys_eq_spec() ==> is_first_found(
                self,
                sub_grid,
                Some(mask.source_grid@),
                max_allowed_mismatches as int,
                scan_start(
                    position[0] as int,
                    position[1] as int,
                    self.width as int,
                    self.width - sub_grid.width + 1,
                    self.height - sub_grid.height + 1,
                ),
                found,
            ),
    {
        self.scan_from(sub_grid, Some(mask.grid()), max_allowed_mismatches, position)
    }

    /// Find the given sub-grid in self. Returns the topleft coordinates of the first position where at most the given number of cells differ.
    pub fn find(&self, sub_grid: &Grid<T>, max_mismatches: usize) -> (found: Option<[usize; 2]>)
        requires
            self.wf(),
            sub_grid.wf(),
            scan_fits(self, sub_grid),
        ensures
            self.width < sub_grid.width || self.height < sub_grid.height ==> found is None,
            T::obeys_eq_spec() ==> is_first_found(
                self,
                sub_grid,
                None,
                max_mismatches as int,
                (0, 0),
                found,
            ),
    {
        self.scan_from(sub_grid, None, max_mismatches, [0, 0])
    }

    /// Find the given sub-grid in self. Returns the topleft coordinates of the first position where at most the given number of cells differ, only matching the positive pixels of the given mask.
    pub fn find_masked(&self, sub_grid: &Grid<T>, mask: &GridMask, max_mismatches: usize) -> (found:
        Option<[usize; 2]>)
        requires
            self.wf(),
            sub_grid.wf(),
            scan_fits(self, sub_grid),
            mask.source_grid@.len() == sub_grid@.len(),
        ensures
            self.width < sub_grid.width || self.height < sub_grid.height ==> found is None,
            T::obeys_eq_spec() ==> is_first_found(
                self,
                sub_grid,
                Some(mask.source_grid@),
                max_mismatches as int,
                (0, 0),
                found,
            ),
    {
        self.scan_from(sub_grid, Some(mask.grid()), max_mismatches, [0, 0])
    }

    /// Every place where the sub-grid is found, with a mask or without.
    fn scan_all(&self, sub_grid: &Grid<T>, mask_grid: Option<&Grid<bool>>, max_mismatches: usize) -> (results:
        Vec<[usize; 2]>)
        requires
            self.wf(),
            sub_grid.wf(),
            scan_fits(self, sub_grid),
            mask_grid matches Some(grid) ==> grid@.len() == sub_grid@.len(),
        ensures
            self.width < sub_grid.width || self.height < sub_grid.height ==> results@.len() == 0,
            T::obeys_eq_spec() ==> is_all_found(
                self,
                sub_grid,
                mask_cells(mask_grid),
                max_mismatches as int,
                results@,
            ),
    {
        let ghost mask = mask_cells(mask_grid);
        let ghost max = max_mismatches as int;
        let ghost end_x = self.width - sub_grid.width + 1;
        let ghost end_y = self.height - sub_grid.height + 1;
        let mut cursor: [usize; 2] = [0, 0];
        let mut results: Vec<[usize; 2]> = Vec::new();
        loop
            invariant
                self.wf(),
                sub_grid.wf(),
                scan_fits(self, sub_grid),
                mask_grid matches Some(grid) ==> grid@.len() == sub_grid@.len(),
                mask == mask_cells(mask_grid),
                max == max_mismatches,
                end_x == self.width - sub_grid.width + 1,
                end_y == self.height - sub_grid.height + 1,
                self.width < sub_grid.width || self.height < sub_grid.height ==> results@.len() == 0,
                0 <= cursor[0] <= end_x || results@.len() == 0,
                results@.len() > 0 ==> cursor[0] == results@[results@.len() - 1][0] + 1 && cursor[1]
                    == results@[results@.len() - 1][1],
                results@.len() == 0 ==> cursor[0] == 0 && cursor[1] == 0,
                T::obeys_eq_spec() ==> forall|k: int|
                    0 <= k < results@.len() ==> found_at(
                        self,
                        sub_grid,
                        mask,
                        max,
                        (#[trigger] results@[k])[0] as int,
                        results@[k][1] as int,
                    ),
                forall|j: int, k: int|
                    0 <= j < k < results@.len() ==> scan_le(
                        (#[trigger] results@[j])[0] as int,
                        results@[j][1] as int,
                        (#[trigger] results@[k])[0] as int,
                        results@[k][1] as int,
                    ) && results@[j] != results@[k],
                T::obeys_eq_spec() ==> forall|x: int, y: int| #[trigger]
                    found_at(self, sub_grid, mask, max, x, y) && !scan_le(
                        cursor[0] as int,
                        cursor[1] as int,
                        x,
                        y,
                    ) ==> exists|k: int|
                        0 <= k < results@.len() && (#[trigger] results@[k])[0] == x && results@[k][1]
                            == y,
            ensures
                self.width < sub_grid.width || self.height < sub_grid.height ==> results@.len() == 0,
                T::obeys_eq_spec() ==> is_all_found(self, sub_grid, mask, max, results@),
            decreases scan_left(cursor[0] as int, cursor[1] as int, end_x, end_y),
        {
            let ghost before = results@;
            let ghost old_cursor = cursor;
            let found: Option<[usize; 2]> = self.scan_from(sub_grid, mask_grid, max_mismatches, cursor);
            proof {
                if self.width >= sub_grid.width && self.height >= sub_grid.height {
                    reveal_with_fuel(scan_start, 2);
                    assert(scan_start(
                        cursor[0] as int,
                        cursor[1] as int,
                        self.width as int,
                        end_x,
                        end_y,
                    ) == (cursor[0] as int, cursor[1] as int));
                }
            }
            match found {
                Some(position) => {
                    results.push(position);
                    cursor = [position[0] + 1, position[1]];
                    proof {
                        lemma_scan_left_decreases(
                            old_cursor[0] as int,
                            old_cursor[1] as int,
                            position[0] as int,
                            position[1] as int,
                            end_x,
                            end_y,
                        );
                        if T::obeys_eq_spec() {
                            assert forall|x: int, y: int| #[trigger]
                                found_at(self, sub_grid, mask, max, x, y) && !scan_le(
                                    cursor[0] as int,
                                    cursor[1] as int,
                                    x,
                                    y,
                                ) implies exists|k: int|
                                0 <= k < results@.len() && (#[trigger] results@[k])[0] == x
                                    && results@[k][1] == y by {
                                if !scan_le(old_cursor[0] as int, old_cursor[1] as int, x, y) {
                                    let k = choose|k: int|
                                        0 <= k < before.len() && (#[trigger] before[k])[0] == x
                                            && before[k][1] == y;
                                    assert(results@[k] == before[k]);
                                } else {
                                    assert((x, y) == (position[0] as int, position[1] as int));
                                    assert(results@[before.len() as int] == position);
                                }
                            }
                        }
                        assert forall|j: int, k: int| 0 <= j < k < results@.len() implies scan_le(
                            (#[trigger] results@[j])[0] as int,
                            results@[j][1] as int,
                            (#[trigger] results@[k])[0] as int,
                            results@[k][1] as int,
                        ) && results@[j] != results@[k] by {
                            if k == before.len() && before.len() > 0 {
                                let last = before.len() - 1;
                                assert(results@[last] == before[last]);
                                if j < last {
                                    assert(results@[j] == before[j]);
                                }
                            }
                        }
                    }
                },
                None => {
                    proof {
                        if T::obeys_eq_spec() {
                            if self.width >= sub_grid.width && self.height >= sub_grid.height {
                                assert forall|x: int, y: int| #[trigger]
                                    found_at(self, sub_grid, mask, max, x, y) implies exists|k: int|
                                    0 <= k < results@.len() && (#[trigger] results@[k])[0] == x
                                        && results@[k][1] == y by {
                                    if scan_le(cursor[0] as int, cursor[1] as int, x, y) {
                                        assert(false);
                                    }
                                }
                            } else {
                                assert forall|x: int, y: int|
                                    !#[trigger] found_at(self, sub_grid, mask, max, x, y) by {}
                            }
                        }
                    }
                    break ;
                },
            }
        }
        results
    }

    /// Find all instances of the given sub-grid in self. Returns the topleft coordinates of the all positions where at most the given number of cells differ.
    pub fn find_all(&self, sub_grid: &Grid<T>, max_mismatches: usize) -> (results: Vec<[usize; 2]>)
        requires
            self.wf(),
            sub_grid.wf(),
            scan_fits(self, sub_grid),
        ensures
            self.width < sub_grid.width || self.height < sub_grid.height ==> results@.len() == 0,
            T::obeys_eq_spec() ==> is_all_found(self, sub_grid, None, max_mismatches as int, results@),
    {
        self.scan_all(sub_grid, None, max_mismatches)
    }

    /// Find all instances of the given sub-grid in self. Returns the topleft coordinates of the all positions where at most the given number of cells differ, only matching the positive pixels of the given mask.
    pub fn find_all_masked(&self, sub_grid: &Grid<T>, mask: &GridMask, max_mismatches: usize) -> (results:
        Vec<[usize; 2]>)
        requires
            self.wf(),
            sub_grid.wf(),
            scan_fits(self, sub_grid),
            mask.source_grid@.len() == sub_grid@.len(),
        ensures
            self.width < sub_grid.width || self.height < sub_grid.height ==> results@.len() == 0,
            T::obeys_eq_spec() ==> is_all_found(
                self,
                sub_grid,
                Some(mask.source_grid@),
                max_mismatches as int,
                results@,
            ),
    {
        self.scan_all(sub_grid, Some(mask.grid()), max_mismatches)
    }
}

/// A scan that goes on right of a position found at or behind where it
/// stood has fewer positions left to visit.
pub proof fn lemma_scan_left_decreases(x0: int, y0: int, x: int, y: int, end_x: int, end_y: int)
    requires
        0 <= x0 <= end_x,
        scan_le(x0, y0, x, y),
        0 <= x < end_x,
        0 <= y < end_y,
    ensures
        scan_left(x + 1, y, end_x, end_y) < scan_left(x0, y0, end_x, end_y),
        scan_left(x + 1, y, end_x, end_y) >= 0,
{
    if y0 < y {
        assert((end_y - y0) * (end_x + 1) >= (end_y - y) * (end_x + 1) + (end_x + 1))
            by (nonlinear_arith)
            requires
                y0 < y,
                end_x >= 0,
        ;
    }
    assert((end_y - y) * (end_x + 1) >= 0) by (nonlinear_arith)
        requires
            y < end_y,
            end_x >= 0,
    ;
}

} // verus!
