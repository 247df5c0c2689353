use vstd::prelude::*;
use vstd::std_specs::cmp::PartialEqSpec;
use vstd::std_specs::cmp::PartialEqSpecImpl;
use crate::grid::Grid;

verus! {

impl<T: PartialEq> PartialEqSpecImpl for Grid<T> {
    open spec fn obeys_eq_spec() -> bool {
        T::obeys_eq_spec()
    }

    /// Two grids are equal when they have the same sizes and equal cells.
    open spec fn eq_spec(&self, other: &Grid<T>) -> bool {
        &&& self.width == other.width
        &&& self.height == other.height
        &&& self@.len() == other@.len()
        &&& forall|i: int| 0 <= i < self@.len() ==> (#[trigger] self@[i]).eq_spec(&other@[i])
    }
}

impl<T: PartialEq> PartialEq for Grid<T> {
    fn eq(&self, other: &Grid<T>) -> (equal: bool) {
        if self.width != other.width || self.height != other.height || self.data.len()
            != other.data.len() {
            return false;
        }
        let mut index: usize = 0;
        while index < self.data.len()
            invariant
                index <= self@.len(),
                self@.len() == other@.len(),
                T::obeys_eq_spec() ==> forall|i: int|
                    0 <= i < index ==> (#[trigger] self@[i]).eq_spec(&other@[i]),
            decreases self@.len() - index,
        {
            if self.data[index] != other.data[index] {
                return false;
            }
            index += 1;
        }
        true
    }
}

} // verus!
