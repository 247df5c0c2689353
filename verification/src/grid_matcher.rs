use vstd::prelude::*;
use vstd::std_specs::cmp::PartialEqSpec;
use crate::counting::count_true;
use crate::counting::lemma_count_no_more;
use crate::grid::Grid;
use crate::indexer::coordinate_of;
use crate::indexer::lemma_coordinate_round_trip;
use crate::indexer::linear_index;
use crate::masks::GridMask;
use crate::similarity::Similarity;
use crate::similarity::comparable;
use crate::similarity::compared_flags;
use crate::similarity::match_flags;
use crate::similarity::mismatch_flags;

verus! {

/// Compares grids with a list of named grids. What is compared is the
/// area of interest of a grid, with the cells outside the mask set to the
/// default value, and every cell put through the filter.
pub struct GridMatcher<SourceType, TargetType, Filter> {
    pub filter: Filter,
    pub area_of_interest: Option<[usize; 4]>,
    pub mask: Option<GridMask>,
    pub named_entries: Vec<(String, Grid<TargetType>)>,
    pub source: std::marker::PhantomData<SourceType>,
}

/// The grid has to be cut down to the area of interest: there is one and
/// the grid does not have its size.
pub open spec fn needs_crop<S>(area_of_interest: Option<[usize; 4]>, grid: &Grid<S>) -> bool {
    area_of_interest matches Some(area) && (grid.width != area[2] || grid.height != area[3])
}

/// The width of a grid once it is cut down to the area of interest.
pub open spec fn cropped_width<S>(area_of_interest: Option<[usize; 4]>, grid: &Grid<S>) -> usize {
    if needs_crop(area_of_interest, grid) {
        area_of_interest->Some_0[2]
    } else {
        grid.width
    }
}

/// The height of a grid once it is cut down to the area of interest.
pub open spec fn cropped_height<S>(area_of_interest: Option<[usize; 4]>, grid: &Grid<S>) -> usize {
    if needs_crop(area_of_interest, grid) {
        area_of_interest->Some_0[3]
    } else {
        grid.height
    }
}

/// The cell of a grid that becomes the cell `index` once the grid is cut
/// down to the area of interest.
pub open spec fn cropped_cell<S>(area_of_interest: Option<[usize; 4]>, grid: &Grid<S>, index: int) -> S {
    if needs_crop(area_of_interest, grid) {
        let area = area_of_interest->Some_0;
        let (x, y) = coordinate_of(area[2] as int, index);
        grid@[linear_index(grid.width as int, area[0] + x, area[1] + y)]
    } else {
        grid@[index]
    }
}

/// The first likeness is the smaller share of equal cells.
pub open spec fn less_similar(left: Similarity, right: Similarity) -> bool {
    left.matches * right.compared < right.matches * left.compared
}

/// Whether two grids differ in at most the given number of the compared
/// cells; grids that cannot be compared do not.
pub open spec fn within_budget<T: PartialEq>(
    left: &Grid<T>,
    right: &Grid<T>,
    mask: Option<GridMask>,
    max_mismatches: int,
) -> bool {
    match mask {
        Some(mask) => comparable(left, right, Some(&mask)) && mask.source_grid@.len() == left@.len()
            && count_true(mismatch_flags(left@, right@, Some(mask.source_grid@))) <= max_mismatches,
        None => comparable(left, right, None) && count_true(mismatch_flags(left@, right@, None))
            <= max_mismatches,
    }
}

/// How alike two grids are: how many of the compared cells are equal, out
/// of how many compared; none out of one for grids that cannot be compared.
pub open spec fn likeness<T: PartialEq>(left: &Grid<T>, right: &Grid<T>, mask: Option<GridMask>) -> Similarity {
    match mask {
        Some(mask) => if comparable(left, right, Some(&mask)) && mask.source_grid@.len()
            == left@.len() {
            Similarity {
                matches: count_true(match_flags(left@, right@, Some(mask.source_grid@))) as usize,
                compared: count_true(compared_flags(left@.len(), Some(mask.source_grid@))) as usize,
            }
        } else {
            Similarity { matches: 0, compared: 1 }
        },
        None => if comparable(left, right, None) {
            Similarity {
                matches: count_true(match_flags(left@, right@, None)) as usize,
                compared: left.data.len(),
            }
        } else {
            Similarity { matches: 0, compared: 1 }
        },
    }
}

/// The entry `best` is the one most alike to the grid: no entry is more
/// alike, and every entry before it is less alike, or compares no cell.
pub open spec fn is_most_alike<T: PartialEq>(
    grid: &Grid<T>,
    entries: Seq<(String, Grid<T>)>,
    mask: Option<GridMask>,
    best: int,
) -> bool {
    &&& 0 <= best < entries.len()
    &&& forall|j: int|
        0 <= j < entries.len() ==> !less_similar(
            likeness(grid, &entries[best].1, mask),
            likeness(grid, &(#[trigger] entries[j]).1, mask),
        )
    &&& forall|j: int|
        0 <= j < best ==> less_similar(
            likeness(grid, &(#[trigger] entries[j]).1, mask),
            likeness(grid, &entries[best].1, mask),
        ) || likeness(grid, &entries[j].1, mask).compared == 0
}

/// The entry `first` is the first that differs from the grid in at most
/// the given number of the compared cells.
pub open spec fn is_first_alike<T: PartialEq>(
    grid: &Grid<T>,
    entries: Seq<(String, Grid<T>)>,
    mask: Option<GridMask>,
    max_mismatches: int,
    first: int,
) -> bool {
    &&& 0 <= first < entries.len()
    &&& within_budget(grid, &entries[first].1, mask, max_mismatches)
    &&& forall|j: int|
        0 <= j < first ==> !within_budget(grid, &(#[trigger] entries[j]).1, mask, max_mismatches)
}

/// Whether the first likeness is the smaller share of equal cells,
/// computed without loss.
fn is_less_similar(left: Similarity, right: Similarity) -> (less: bool)
    ensures
        less == less_similar(left, right),
{
    assert(left.matches * right.compared <= u128::MAX) by (nonlinear_arith)
        requires
            left.matches <= u64::MAX,
            right.compared <= u64::MAX,
    ;
    assert(right.matches * left.compared <= u128::MAX) by (nonlinear_arith)
        requires
            right.matches <= u64::MAX,
            left.compared <= u64::MAX,
    ;
    (left.matches as u128) * (right.compared as u128) < (right.matches as u128) * (
    left.compared as u128)
}

impl<SourceType: PartialEq + Default, TargetType: PartialEq, Filter: Fn(SourceType) -> TargetType> GridMatcher<
    SourceType,
    TargetType,
    Filter,
> {
    /// The mask, if there is one, is well-formed, and the filter takes
    /// every value.
    pub open spec fn wf(&self) -> bool {
        &&& self.mask matches Some(mask) ==> mask.wf()
        &&& forall|value: SourceType| call_requires(self.filter, (value,))
        &&& forall|k: int| 0 <= k < self.named_entries@.len() ==> (#[trigger] self.named_entries@[k]).1.wf()
    }

    /// The grid can be processed: its area of interest lies inside it, and
    /// what is left of it has the size of the mask.
    pub open spec fn processable(&self, grid: &Grid<SourceType>) -> bool {
        &&& grid.wf()
        &&& needs_crop(self.area_of_interest, grid) ==> self.area_of_interest->Some_0[0]
            + self.area_of_interest->Some_0[2] <= grid.width && self.area_of_interest->Some_0[1]
            + self.area_of_interest->Some_0[3] <= grid.height
        &&& self.mask matches Some(mask) ==> cropped_width(self.area_of_interest, grid)
            == mask.source_grid.width && cropped_height(self.area_of_interest, grid)
            == mask.source_grid.height && mask.source_grid.wf()
    }

    /// `processed` is what the grid is turned into before it is compared.
    pub open spec fn is_processed(&self, grid: &Grid<SourceType>, processed: &Grid<TargetType>) -> bool {
        &&& processed.wf()
        &&& processed.width == cropped_width(self.area_of_interest, grid)
        &&& processed.height == cropped_height(self.area_of_interest, grid)
        &&& forall|i: int|
            0 <= i < processed@.len() ==> #[trigger] self.is_processed_cell(grid, processed@[i], i)
    }

    /// `cell` is what the filter gave for the cell `index` of the grid cut
    /// down to the area of interest, or for a default value where the mask
    /// leaves the cell out.
    pub open spec fn is_processed_cell(&self, grid: &Grid<SourceType>, cell: TargetType, index: int) -> bool {
        exists|source: SourceType|
            {
                &&& #[trigger] call_ensures(self.filter, (source,), cell)
                &&& if self.mask matches Some(mask) && !mask.source_grid@[index] {
                    call_ensures(SourceType::default, (), source)
                } else {
                    source == cropped_cell(self.area_of_interest, grid, index)
                }
            }
    }

    /// Create a new grid-matcher.
    pub fn new(filter: Filter) -> (matcher: GridMatcher<SourceType, TargetType, Filter>)
        ensures
            matcher.filter == filter,
            matcher.area_of_interest is None,
            matcher.mask is None,
            matcher.named_entries@.len() == 0,
    {
        GridMatcher {
            filter,
            area_of_interest: None,
            mask: None,
            named_entries: Vec::new(),
            source: std::marker::PhantomData,
        }
    }

    /// Return self with an area of interest.
    pub fn with_area_of_interest(self, area_of_interest: [usize; 4]) -> (matcher: Self)
        ensures
            matcher.filter == self.filter,
            matcher.area_of_interest == Some(area_of_interest),
            matcher.mask == self.mask,
            matcher.named_entries == self.named_entries,
    {
        let mut matcher = self;
        matcher.area_of_interest = Some(area_of_interest);
        matcher
    }

    /// Return self with a mask.
    pub fn with_mask(self, mask: GridMask) -> (matcher: Self)
        ensures
            matcher.filter == self.filter,
            matcher.area_of_interest == self.area_of_interest,
            matcher.mask == Some(mask),
            matcher.named_entries == self.named_entries,
    {
        let mut matcher = self;
        matcher.mask = Some(mask);
        matcher
    }

    /// Return self with an additional named entry.
    pub fn with_named_entry(self, name: &str, grid: Grid<SourceType>) -> (matcher: Self)
        requires
            self.wf(),
            self.processable(&grid),
        ensures
            matcher.wf(),
            matcher.filter == self.filter,
            matcher.area_of_interest == self.area_of_interest,
            matcher.mask == self.mask,
            matcher.named_entries@.len() == self.named_entries@.len() + 1,
            matcher.named_entries@.take(self.named_entries@.len() as int) == self.named_entries@,
            matcher.named_entries@[self.named_entries@.len() as int].0@ == name@,
            self.is_processed(&grid, &matcher.named_entries@[self.named_entries@.len() as int].1),
    {
        let mut matcher = self;
        let processed: Grid<TargetType> = matcher.process_grid(grid);
        matcher.named_entries.push((name.to_owned(), processed));
        matcher
    }

    /// Get the stored named entries.
    pub fn named_entries(&self) -> (entries: &[(String, Grid<TargetType>)])
        ensures
            entries@ == self.named_entries@,
    {
        self.named_entries.as_slice()
    }

    /// From a grid of the input-type, returns a grid of the output type, fully processed from all modifiers in own properties.
    pub fn process_grid(&self, grid: Grid<SourceType>) -> (processed: Grid<TargetType>)
        requires
            self.wf(),
            self.processable(&grid),
        ensures
            self.is_processed(&grid, &processed),
    {
        let ghost original = grid;
        let mut grid: Grid<SourceType> = grid;
        let mut cropped: bool = false;
        if let Some(area_of_interest) = self.area_of_interest {
            if grid.width != area_of_interest[2] || grid.height != area_of_interest[3] {
                grid = grid.take(area_of_interest);
                cropped = true;
            }
        }
        proof {
            assert forall|i: int| 0 <= i < grid@.len() implies #[trigger] grid@[i] == cropped_cell(
                self.area_of_interest,
                &original,
                i,
            ) by {
                if cropped {
                    let area = self.area_of_interest->Some_0;
                    assert(area[2] > 0) by (nonlinear_arith)
                        requires
                            area[2] * area[3] > 0,
                    ;
                    lemma_coordinate_round_trip(area[2] as int, area[3] as int, i);
                    let (x, y) = coordinate_of(area[2] as int, i);
                    assert(grid@[linear_index(area[2] as int, x, y)] == original@[linear_index(
                        original.width as int,
                        area[0] + x,
                        area[1] + y,
                    )]);
                }
            }
        }
        let ghost before_mask = grid@;
        if let Some(mask) = &self.mask {
            grid.apply_mask(mask);
        }
        let width: usize = grid.width;
        let height: usize = grid.height;
        let ghost sources = grid@;
        let mut data: Vec<TargetType> = Vec::with_capacity(grid.data.len());
        for value in iterator: grid.data
            invariant
                iterator.seq() == sources,
                data@.len() == iterator.index(),
                forall|value: SourceType| call_requires(self.filter, (value,)),
                forall|i: int|
                    0 <= i < data@.len() ==> call_ensures(self.filter, (sources[i],), #[trigger] data@[i]),
        {
            data.push((self.filter)(value));
        }
        let processed: Grid<TargetType> = Grid::new(data, width, height);
        proof {
            assert forall|i: int| 0 <= i < processed@.len() implies #[trigger] self.is_processed_cell(
                &original,
                processed@[i],
                i,
            ) by {
                assert(call_ensures(self.filter, (sources[i],), processed@[i]));
                assert(before_mask[i] == cropped_cell(self.area_of_interest, &original, i));
            }
        }
        processed
    }
}


impl<SourceType: PartialEq + Default, TargetType: PartialEq, Filter: Fn(SourceType) -> TargetType> GridMatcher<
    SourceType,
    TargetType,
    Filter,
> {
    /// How alike a processed grid and an entry are.
    fn entry_likeness(&self, grid: &Grid<TargetType>, index: usize) -> (score: Similarity)
        requires
            self.wf(),
            index < self.named_entries@.len(),
        ensures
            score.matches <= score.compared,
            TargetType::obeys_eq_spec() ==> score == likeness(
                grid,
                &self.named_entries@[index as int].1,
                self.mask,
            ),
    {
        let entry: &Grid<TargetType> = &self.named_entries[index].1;
        let result = match &self.mask {
            Some(mask) => grid.similarity_to_masked(entry, mask),
            None => grid.similarity_to(entry),
        };
        match result {
            Ok(score) => score,
            Err(_) => Similarity { matches: 0, compared: 1 },
        }
    }

    /// Find the name and likeness of the stored entry that is most alike to
    /// a grid that has been processed already. Of entries that are equally
    /// alike the first one is taken.
    pub fn most_similar_to_processed(&self, grid: &Grid<TargetType>) -> (best: Option<(&str, Similarity)>)
        requires
            self.wf(),
        ensures
            best is None <==> self.named_entries@.len() == 0,
            TargetType::obeys_eq_spec() ==> (best matches Some((name, score)) ==> exists|k: int|
                {
                    &&& #[trigger] is_most_alike(grid, self.named_entries@, self.mask, k)
                    &&& name@ == self.named_entries@[k].0@
                    &&& score == likeness(grid, &self.named_entries@[k].1, self.mask)
                }),
    {
        if self.named_entries.len() == 0 {
            return None;
        }
        let ghost entries = self.named_entries@;
        let mut best_index: usize = 0;
        let mut best_score: Similarity = self.entry_likeness(grid, 0);
        let mut index: usize = 1;
        while index < self.named_entries.len()
            invariant
                self.wf(),
                entries == self.named_entries@,
                1 <= index <= entries.len(),
                best_index < index,
                best_score.matches <= best_score.compared,
                TargetType::obeys_eq_spec() ==> best_score == likeness(
                    grid,
                    &entries[best_index as int].1,
                    self.mask,
                ),
                TargetType::obeys_eq_spec() ==> is_most_alike(
                    grid,
                    entries.take(index as int),
                    self.mask,
                    best_index as int,
                ),
            decreases entries.len() - index,
        {
            let score: Similarity = self.entry_likeness(grid, index);
            let ghost before = entries.take(index as int);
            let ghost after = entries.take(index + 1);
            let ghost old_best = best_index as int;
            let ghost old_score = best_score;
            let replace: bool = is_less_similar(best_score, score);
            if replace {
                best_index = index;
                best_score = score;
            }
            proof {
                if TargetType::obeys_eq_spec() {
                    assert(after[index as int] == entries[index as int]);
                    assert forall|j: int| 0 <= j < after.len() implies !less_similar(
                        likeness(grid, &after[best_index as int].1, self.mask),
                        likeness(grid, &(#[trigger] after[j]).1, self.mask),
                    ) by {
                        if j < index {
                            assert(after[j] == before[j]);
                            assert(after[old_best] == before[old_best]);
                            let other = likeness(grid, &before[j].1, self.mask);
                            assert(!less_similar(old_score, other));
                            lemma_likeness_bounds(grid, &before[j].1, self.mask);
                            if replace {
                                lemma_not_less(old_score, score, other);
                            }
                        } else {
                            assert(after[old_best] == before[old_best]);
                        }
                    }
                    assert forall|j: int| 0 <= j < best_index implies less_similar(
                        likeness(grid, &(#[trigger] after[j]).1, self.mask),
                        likeness(grid, &after[best_index as int].1, self.mask),
                    ) || likeness(grid, &after[j].1, self.mask).compared == 0 by {
                        assert(after[j] == before[j]);
                        assert(after[old_best] == before[old_best]);
                        if replace {
                            let other = likeness(grid, &before[j].1, self.mask);
                            assert(!less_similar(old_score, other));
                            lemma_likeness_bounds(grid, &before[j].1, self.mask);
                            lemma_less_before(other, old_score, score);
                        }
                    }
                }
            }
            index += 1;
        }
        proof {
            assert(entries.take(entries.len() as int) == entries);
        }
        Some((self.named_entries[best_index].0.as_str(), best_score))
    }

    /// Find the name of the first stored entry that differs from a grid
    /// that has been processed already in at most the given number of the
    /// compared cells.
    pub fn first_similar_to_processed(&self, grid: &Grid<TargetType>, max_mismatches: usize) -> (first:
        Option<&str>)
        requires
            self.wf(),
        ensures
            TargetType::obeys_eq_spec() ==> match first {
                Some(name) => exists|k: int|
                    #[trigger] is_first_alike(
                        grid,
                        self.named_entries@,
                        self.mask,
                        max_mismatches as int,
                        k,
                    ) && name@ == self.named_entries@[k].0@,
                None => forall|j: int|
                    0 <= j < self.named_entries@.len() ==> !within_budget(
                        grid,
                        &(#[trigger] self.named_entries@[j]).1,
                        self.mask,
                        max_mismatches as int,
                    ),
            },
    {
        let mut index: usize = 0;
        while index < self.named_entries.len()
            invariant
                self.wf(),
                index <= self.named_entries@.len(),
                TargetType::obeys_eq_spec() ==> forall|j: int|
                    0 <= j < index ==> !within_budget(
                        grid,
                        &(#[trigger] self.named_entries@[j]).1,
                        self.mask,
                        max_mismatches as int,
                    ),
            decreases self.named_entries@.len() - index,
        {
            let entry: &Grid<TargetType> = &self.named_entries[index].1;
            let is_similar: bool = match &self.mask {
                Some(mask) => grid.similar_to_masked(entry, max_mismatches, mask),
                None => grid.similar_to(entry, max_mismatches),
            };
            if is_similar {
                proof {
                    if TargetType::obeys_eq_spec() {
                        assert(is_first_alike(
                            grid,
                            self.named_entries@,
                            self.mask,
                            max_mismatches as int,
                            index as int,
                        ));
                    }
                }
                return Some(self.named_entries[index].0.as_str());
            }
            index += 1;
        }
        None
    }

    /// Find the name and likeness of the stored entry that is most alike to
    /// the given grid.
    pub fn most_similar_to(&self, grid: Grid<SourceType>) -> (best: Option<(&str, Similarity)>)
        requires
            self.wf(),
            self.processable(&grid),
        ensures
            best is None <==> self.named_entries@.len() == 0,
            TargetType::obeys_eq_spec() ==> (best matches Some((name, score)) ==> exists|
                processed: Grid<TargetType>,
                k: int,
            |
                {
                    &&& self.is_processed(&grid, &processed)
                    &&& #[trigger] is_most_alike(&processed, self.named_entries@, self.mask, k)
                    &&& name@ == self.named_entries@[k].0@
                    &&& score == likeness(&processed, &self.named_entries@[k].1, self.mask)
                }),
    {
        let processed: Grid<TargetType> = self.process_grid(grid);
        let best = self.most_similar_to_processed(&processed);
        proof {
            if TargetType::obeys_eq_spec() && best is Some {
                let k = choose|k: int|
                    {
                        &&& #[trigger] is_most_alike(&processed, self.named_entries@, self.mask, k)
                        &&& best->Some_0.0@ == self.named_entries@[k].0@
                        &&& best->Some_0.1 == likeness(
                            &processed,
                            &self.named_entries@[k].1,
                            self.mask,
                        )
                    };
                assert(is_most_alike(&processed, self.named_entries@, self.mask, k));
            }
        }
        best
    }

    /// Find the name of the first stored entry that differs from the given
    /// grid in at most the given number of the compared cells.
    pub fn first_similar_to(&self, grid: Grid<SourceType>, max_mismatches: usize) -> (first: Option<
        &str,
    >)
        requires
            self.wf(),
            self.processable(&grid),
        ensures
            TargetType::obeys_eq_spec() ==> exists|processed: Grid<TargetType>|
                #![trigger self.is_processed(&grid, &processed)]
                {
                    &&& self.is_processed(&grid, &processed)
                    &&& match first {
                        Some(name) => exists|k: int|
                            #[trigger] is_first_alike(
                                &processed,
                                self.named_entries@,
                                self.mask,
                                max_mismatches as int,
                                k,
                            ) && name@ == self.named_entries@[k].0@,
                        None => forall|j: int|
                            0 <= j < self.named_entries@.len() ==> !within_budget(
                                &processed,
                                &(#[trigger] self.named_entries@[j]).1,
                                self.mask,
                                max_mismatches as int,
                            ),
                    }
                },
    {
        let processed: Grid<TargetType> = self.process_grid(grid);
        let first = self.first_similar_to_processed(&processed, max_mismatches);
        proof {
            assert(self.is_processed(&grid, &processed));
        }
        first
    }
}

/// A likeness never counts more equal cells than compared cells.
pub proof fn lemma_likeness_bounds<T: PartialEq>(left: &Grid<T>, right: &Grid<T>, mask: Option<GridMask>)
    ensures
        likeness(left, right, mask).matches <= likeness(left, right, mask).compared,
{
    assert(left.data.len() == left@.len());
    match mask {
        Some(mask) => {
            let compared = compared_flags(left@.len(), Some(mask.source_grid@));
            let matches = match_flags(left@, right@, Some(mask.source_grid@));
            lemma_count_no_more(compared, matches);
        },
        None => {
            let compared = compared_flags(left@.len(), None);
            let matches = match_flags(left@, right@, None);
            lemma_count_no_more(compared, matches);
        },
    }
}

/// Nothing is more alike than what is more alike than the most alike so
/// far.
pub proof fn lemma_not_less(best: Similarity, better: Similarity, other: Similarity)
    requires
        less_similar(best, better),
        !less_similar(best, other),
        best.matches <= best.compared,
        better.matches <= better.compared,
        other.matches <= other.compared,
    ensures
        !less_similar(better, other),
{
    if less_similar(better, other) {
        assert(best.matches * better.compared < better.matches * best.compared);
        assert(better.matches * other.compared < other.matches * better.compared);
        assert(best.matches * other.compared >= other.matches * best.compared);
        assert(false) by (nonlinear_arith)
            requires
                best.matches * better.compared < better.matches * best.compared,
                better.matches * other.compared < other.matches * better.compared,
                best.matches * other.compared >= other.matches * best.compared,
                0 <= best.matches <= best.compared,
                0 <= better.matches <= better.compared,
                0 <= other.matches <= other.compared,
        ;
    }
}

/// What is no more alike than the most alike so far is less alike than
/// what is more alike than that, unless it compares no cell.
pub proof fn lemma_less_before(other: Similarity, best: Similarity, better: Similarity)
    requires
        less_similar(best, better),
        !less_similar(best, other),
        best.matches <= best.compared,
        better.matches <= better.compared,
        other.matches <= other.compared,
    ensures
        less_similar(other, better) || other.compared == 0,
{
    if !less_similar(other, better) && other.compared != 0 {
        assert(false) by (nonlinear_arith)
            requires
                best.matches * better.compared < better.matches * best.compared,
                other.matches * better.compared >= better.matches * other.compared,
                best.matches * other.compared >= other.matches * best.compared,
                0 <= best.matches <= best.compared,
                0 <= better.matches <= better.compared,
                0 <= other.matches <= other.compared,
                other.compared > 0,
        ;
    }
}

} // verus!
