use vstd::prelude::*;
use crate::grid::Grid;

verus! {

impl<T> Grid<T> {
    /// Convert the grid to another type.
    pub fn map<U, V: Fn(T) -> U>(self, conversion_function: V) -> (grid: Grid<U>)
        requires
            forall|i: int| 0 <= i < self@.len() ==> call_requires(conversion_function, (self@[i],)),
        ensures
            grid.width == self.width,
            grid.height == self.height,
            grid@.len() == self@.len(),
            forall|i: int| 0 <= i < self@.len() ==> call_ensures(
                conversion_function,
                (self@[i],),
                #[trigger] grid@[i],
            ),
    {
        let width: usize = self.width;
        let height: usize = self.height;
        let ghost cells = self@;
        let mut data: Vec<U> = Vec::with_capacity(self.data.len());
        for value in iter: self.data
            invariant
                iter.seq() == cells,
                data@.len() == iter.index(),
                forall|i: int| 0 <= i < cells.len() ==> call_requires(conversion_function, (cells[i],)),
                forall|i: int| 0 <= i < data@.len() ==> call_ensures(
                    conversion_function,
                    (cells[i],),
                    #[trigger] data@[i],
                ),
        {
            data.push(conversion_function(value));
        }
        Grid { data, width, height }
    }

    /// Convert the grid to another type without consuming self.
    pub fn map_ref<U, V: Fn(&T) -> U>(&self, conversion_function: V) -> (grid: Grid<U>)
        requires
            forall|i: int| 0 <= i < self@.len() ==> call_requires(conversion_function, (&self@[i],)),
        ensures
            grid.width == self.width,
            grid.height == self.height,
            grid@.len() == self@.len(),
            forall|i: int| 0 <= i < self@.len() ==> call_ensures(
                conversion_function,
                (&self@[i],),
                #[trigger] grid@[i],
            ),
    {
        let mut data: Vec<U> = Vec::with_capacity(self.data.len());
        let mut index: usize = 0;
        while index < self.data.len()
            invariant
                index <= self@.len(),
                data@.len() == index,
                forall|i: int| 0 <= i < self@.len() ==> call_requires(conversion_function, (&self@[i],)),
                forall|i: int| 0 <= i < index ==> call_ensures(
                    conversion_function,
                    (&self@[i],),
                    #[trigger] data@[i],
                ),
            decreases self@.len() - index,
        {
            data.push(conversion_function(&self.data[index]));
            index += 1;
        }
        Grid { data, width: self.width, height: self.height }
    }
}

} // verus!
