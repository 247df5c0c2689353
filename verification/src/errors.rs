use vstd::prelude::*;

verus! {

/// What can go wrong in an operation on grids.
#[derive(Debug, Clone, Copy, PartialEq, Eq, Structural)]
pub enum GridError {
    /// An index or coordinate lies outside the grid.
    OutOfBounds,
    /// Two grids that have to be of one size differ in width, height or
    /// length of data.
    DimensionMismatch,
    /// A mask does not have the size of the grid it is applied to.
    MaskMismatch,
    /// The grid to search in is smaller than the grid to look for.
    NeedleTooLarge,
    /// The start or the end of a path does not belong to the region.
    OutOfRegion,
    /// No path leads from the start to the end.
    PathNotFound,
    /// The recorded way back from the end runs in a circle.
    LoopDetected,
    /// The bytes do not hold what the format asks for.
    Format,
}

} // verus!
