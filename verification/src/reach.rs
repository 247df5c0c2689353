use vstd::prelude::*;
use crate::indexer::is_neighbor;

verus! {

/// The cells of the path lie in the grid, each next to the one before it,
/// and every move from a cell to the next is one that `step` allows.
pub open spec fn is_walk(path: Seq<int>, width: int, len: int, step: spec_fn(int, int) -> bool) -> bool {
    &&& path.len() > 0
    &&& forall|k: int| 0 <= k < path.len() ==> 0 <= #[trigger] path[k] < len
    &&& forall|k: int|
        0 <= k < path.len() - 1 ==> is_neighbor(width, len, #[trigger] path[k], path[k + 1])
            && step(path[k], path[k + 1])
}

/// A walk leads from `start` to `target`.
pub open spec fn reaches(
    width: int,
    len: int,
    step: spec_fn(int, int) -> bool,
    start: int,
    target: int,
) -> bool {
    exists|path: Seq<int>| #[trigger]
        is_walk(path, width, len, step) && path[0] == start && path.last() == target
}

/// Every cell reaches itself.
pub proof fn lemma_reaches_self(width: int, len: int, step: spec_fn(int, int) -> bool, start: int)
    requires
        0 <= start < len,
    ensures
        reaches(width, len, step, start, start),
{
    let path = seq![start];
    assert(is_walk(path, width, len, step));
    assert(path[0] == start && path.last() == start);
}

/// A walk can be made one allowed move longer.
pub proof fn lemma_reaches_next(
    width: int,
    len: int,
    step: spec_fn(int, int) -> bool,
    start: int,
    from: int,
    to: int,
)
    requires
        reaches(width, len, step, start, from),
        is_neighbor(width, len, from, to),
        step(from, to),
    ensures
        reaches(width, len, step, start, to),
{
    let path = choose|path: Seq<int>| #[trigger]
        is_walk(path, width, len, step) && path[0] == start && path.last() == from;
    let longer = path.push(to);
    assert forall|k: int| 0 <= k < longer.len() - 1 implies is_neighbor(
        width,
        len,
        #[trigger] longer[k],
        longer[k + 1],
    ) && step(longer[k], longer[k + 1]) by {
        if k < path.len() - 1 {
            assert(longer[k] == path[k] && longer[k + 1] == path[k + 1]);
        }
    }
    assert(is_walk(longer, width, len, step));
    assert(longer[0] == start && longer.last() == to);
}

/// A set of cells that holds with each cell the cells that are one allowed
/// move away holds the end of every walk that starts in it.
pub proof fn lemma_walk_stays(
    marked: Seq<bool>,
    width: int,
    step: spec_fn(int, int) -> bool,
    path: Seq<int>,
)
    requires
        is_walk(path, width, marked.len() as int, step),
        marked[path[0]],
        forall|a: int, b: int|
            0 <= a < marked.len() && marked[a] && #[trigger] is_neighbor(
                width,
                marked.len() as int,
                a,
                b,
            ) && step(a, b) ==> marked[b],
    ensures
        marked[path.last()],
    decreases path.len(),
{
    if path.len() > 1 {
        let shorter = path.drop_last();
        assert(is_walk(shorter, width, marked.len() as int, step)) by {
            assert forall|k: int| 0 <= k < shorter.len() - 1 implies is_neighbor(
                width,
                marked.len() as int,
                #[trigger] shorter[k],
                shorter[k + 1],
            ) && step(shorter[k], shorter[k + 1]) by {
                assert(shorter[k] == path[k] && shorter[k + 1] == path[k + 1]);
            }
        }
        lemma_walk_stays(marked, width, step, shorter);
        let k = path.len() - 2;
        assert(shorter.last() == path[k]);
        assert(is_neighbor(width, marked.len() as int, path[k], path[k + 1]));
    }
}

/// A set of cells that holds the start and, with each cell, the cells that
/// are one allowed move away holds every cell that the start reaches.
pub proof fn lemma_closed_holds_reached(
    marked: Seq<bool>,
    width: int,
    step: spec_fn(int, int) -> bool,
    start: int,
)
    requires
        0 <= start < marked.len(),
        marked[start],
        forall|a: int, b: int|
            0 <= a < marked.len() && marked[a] && #[trigger] is_neighbor(
                width,
                marked.len() as int,
                a,
                b,
            ) && step(a, b) ==> marked[b],
    ensures
        forall|target: int| #[trigger]
            reaches(width, marked.len() as int, step, start, target) ==> marked[target],
{
    assert forall|target: int| #[trigger]
        reaches(width, marked.len() as int, step, start, target) implies marked[target] by {
        let path = choose|path: Seq<int>| #[trigger]
            is_walk(path, width, marked.len() as int, step) && path[0] == start && path.last()
                == target;
        lemma_walk_stays(marked, width, step, path);
    }
}

} // verus!
