use vstd::prelude::*;
use vstd::std_specs::cmp::PartialEqSpec;
use crate::counting::count_true;
use crate::counting::lemma_count_step;
use crate::errors::GridError;
use crate::grid::Grid;
use crate::masks::GridMask;
use crate::similarity::Similarity;
use crate::similarity::comparable;
use crate::similarity::compared_flags;

verus! {

/// How two grids are to be compared: the predicate that tells whether two
/// cells count as alike, the number of compared cells that may be unlike
/// for the grids to count as alike, if the answer is to be yes or no, and
/// the mask that picks the cells to compare, if not all are compared.
pub struct SimilaritySettings<P> {
    pub predicate: P,
    pub max_mismatches: Option<usize>,
    pub mask: Option<GridMask>,
}

impl<P> SimilaritySettings<P> {
    /// Settings that compare all cells by a predicate and count the cells
    /// that are alike.
    pub fn new(predicate: P) -> (settings: SimilaritySettings<P>)
        ensures
            settings.predicate == predicate,
            settings.max_mismatches is None,
            settings.mask is None,
    {
        SimilaritySettings { predicate, max_mismatches: None, mask: None }
    }

    /// Return self with the number of compared cells that may be unlike for
    /// the grids to count as alike.
    pub fn with_max_mismatches(self, max_mismatches: usize) -> (settings: SimilaritySettings<P>)
        ensures
            settings.predicate == self.predicate,
            settings.max_mismatches == Some(max_mismatches),
            settings.mask == self.mask,
    {
        let mut settings = self;
        settings.max_mismatches = Some(max_mismatches);
        settings
    }

    /// Return self with a mask that picks the cells to compare.
    pub fn with_mask(self, mask: GridMask) -> (settings: SimilaritySettings<P>)
        ensures
            settings.predicate == self.predicate,
            settings.max_mismatches == self.max_mismatches,
            settings.mask == Some(mask),
    {
        let mut settings = self;
        settings.mask = Some(mask);
        settings
    }
}

/// Settings that compare all cells for equality and count the equal ones.
pub fn equality_settings<T: PartialEq>() -> (settings: SimilaritySettings<impl Fn(&T, &T) -> bool>)
    ensures
        settings.max_mismatches is None,
        settings.mask is None,
        forall|a: &T, b: &T| call_requires(settings.predicate, (a, b)),
        T::obeys_eq_spec() ==> forall|a: &T, b: &T, alike: bool|
            call_ensures(settings.predicate, (a, b), alike) ==> alike == a.eq_spec(b),
{
    let predicate = |a: &T, b: &T| -> (alike: bool)
        ensures
            T::obeys_eq_spec() ==> alike == a.eq_spec(b),
        { *a == *b };
    SimilaritySettings::new(predicate)
}

/// For each cell what the predicate may have answered for it: `verdicts`
/// holds a possible answer of the predicate for every pair of cells.
pub open spec fn are_verdicts<T, P: Fn(&T, &T) -> bool>(
    left: Seq<T>,
    right: Seq<T>,
    predicate: P,
    verdicts: Seq<bool>,
) -> bool {
    &&& verdicts.len() == left.len()
    &&& forall|i: int|
        0 <= i < left.len() ==> call_ensures(predicate, (&left[i], &right[i]), #[trigger] verdicts[i])
}

/// For each cell whether it is compared and the verdict on it is that the
/// cells are alike.
pub open spec fn alike_flags(verdicts: Seq<bool>, mask: Option<Seq<bool>>) -> Seq<bool> {
    Seq::new(verdicts.len(), |i: int| compared_flags(verdicts.len(), mask)[i] && verdicts[i])
}

/// The cells of the mask of the settings, if there is one.
pub open spec fn settings_mask<P>(settings: &SimilaritySettings<P>) -> Option<Seq<bool>> {
    match settings.mask {
        Some(mask) => Some(mask.source_grid@),
        None => None,
    }
}

/// The likeness that the settings ask for, given the verdicts of the
/// predicate: how many of the compared cells are alike, out of how many
/// compared; or, where the settings state how many may be unlike, one out
/// of one if no more are unlike and none out of one otherwise.
pub open spec fn likeness_by<P>(settings: &SimilaritySettings<P>, verdicts: Seq<bool>) -> (int, int) {
    let alike = count_true(alike_flags(verdicts, settings_mask(settings))) as int;
    let compared = count_true(compared_flags(verdicts.len(), settings_mask(settings))) as int;
    match settings.max_mismatches {
        Some(max_mismatches) => if compared - alike <= max_mismatches {
            (1, 1)
        } else {
            (0, 1)
        },
        None => (alike, compared),
    }
}

/// The grids are of one size, and so is the mask of the settings, if there
/// is one.
pub open spec fn fits_settings<T, P>(left: &Grid<T>, right: &Grid<T>, settings: &SimilaritySettings<P>) -> bool {
    &&& comparable(left, right, None)
    &&& settings.mask matches Some(mask) ==> left.width == mask.source_grid.width && left.height
        == mask.source_grid.height && mask.source_grid@.len() == left@.len()
}

impl<T> Grid<T> {
    /// Compare this grid to another as the settings ask for. Fails when
    /// the grids, or the grids and the mask, are not of one size.
    pub fn similarity_by<P: Fn(&T, &T) -> bool>(&self, other: &Grid<T>, settings: &SimilaritySettings<P>) -> (result:
        Result<Similarity, GridError>)
        requires
            forall|a: &T, b: &T| call_requires(settings.predicate, (a, b)),
        ensures
            match result {
                Ok(similarity) => {
                    &&& fits_settings(self, other, settings)
                    &&& exists|verdicts: Seq<bool>|
                        #[trigger] are_verdicts(self@, other@, settings.predicate, verdicts)
                            && likeness_by(settings, verdicts) == (
                            similarity.matches as int,
                            similarity.compared as int,
                        )
                },
                Err(error) => if comparable(self, other, None) {
                    error == GridError::MaskMismatch && !fits_settings(self, other, settings)
                } else {
                    error == GridError::DimensionMismatch
                },
            },
    {
        if self.width != other.width || self.height != other.height || self.data.len()
            != other.data.len() {
            return Err(GridError::DimensionMismatch);
        }
        if let Some(mask) = &settings.mask {
            if self.width != mask.width() || self.height != mask.height() || mask.grid().len()
                != self.data.len() {
                return Err(GridError::MaskMismatch);
            }
        }
        let ghost mask_cells = settings_mask(settings);
        let ghost mut verdicts: Seq<bool> = Seq::empty();
        let mut alike: usize = 0;
        let mut compared: usize = 0;
        let mut index: usize = 0;
        proof {
            assert(alike_flags(Seq::empty(), mask_cells) =~= Seq::<bool>::empty());
            assert(compared_flags(self@.len(), mask_cells).take(0) =~= Seq::<bool>::empty());
        }
        while index < self.data.len()
            invariant
                index <= self@.len(),
                self@.len() == other@.len(),
                mask_cells == settings_mask(settings),
                settings.mask matches Some(mask) ==> mask.source_grid@.len() == self@.len(),
                forall|a: &T, b: &T| call_requires(settings.predicate, (a, b)),
                verdicts.len() == index,
                forall|i: int|
                    0 <= i < index ==> call_ensures(
                        settings.predicate,
                        (&self@[i], &other@[i]),
                        #[trigger] verdicts[i],
                    ),
                alike <= compared <= index,
                compared == count_true(compared_flags(self@.len(), mask_cells).take(index as int)),
                alike == count_true(
                    Seq::new(
                        index as nat,
                        |i: int| compared_flags(self@.len(), mask_cells)[i] && verdicts[i],
                    ),
                ),
            decreases self@.len() - index,
        {
            let counted: bool = match &settings.mask {
                Some(mask) => mask.grid().data[index],
                None => true,
            };
            let verdict: bool = (settings.predicate)(&self.data[index], &other.data[index]);
            proof {
                let all = compared_flags(self@.len(), mask_cells);
                lemma_count_step(all, index as int);
                let before = Seq::new(index as nat, |i: int| all[i] && verdicts[i]);
                let grown = verdicts.push(verdict);
                let after = Seq::new((index + 1) as nat, |i: int| all[i] && grown[i]);
                assert(after.take(index as int) =~= before);
                assert(after.take(index + 1) =~= after);
                lemma_count_step(after, index as int);
                verdicts = grown;
            }
            if counted {
                compared += 1;
                if verdict {
                    alike += 1;
                }
            }
            index += 1;
        }
        proof {
            let all = compared_flags(self@.len(), mask_cells);
            assert(all.take(self@.len() as int) =~= all);
            assert(Seq::new(self@.len(), |i: int| all[i] && verdicts[i]) =~= alike_flags(
                verdicts,
                mask_cells,
            ));
            assert(are_verdicts(self@, other@, settings.predicate, verdicts));
        }
        let similarity: Similarity = match settings.max_mismatches {
            Some(max_mismatches) => if compared - alike <= max_mismatches {
                Similarity { matches: 1, compared: 1 }
            } else {
                Similarity { matches: 0, compared: 1 }
            },
            None => Similarity { matches: alike, compared },
        };
        proof {
            assert(likeness_by(settings, verdicts) == (
                similarity.matches as int,
                similarity.compared as int,
            ));
        }
        Ok(similarity)
    }
}

} // verus!
