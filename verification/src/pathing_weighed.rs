use vstd::prelude::*;
use crate::counting::count_true;
use crate::counting::lemma_count_all_clear;
use crate::counting::lemma_count_no_more;
use crate::counting::lemma_count_raise;
use crate::errors::GridError;
use crate::grid::Grid;
use crate::indexer::GridIndexer;
use crate::indexer::is_neighbor;
use crate::indexer::lemma_coordinate_round_trip;
use crate::indexer::lemma_neighbors_of;
use crate::indexer::linear_index;
use crate::indexer::neighbors_of;
use crate::pathing::is_path_between;
use crate::pathing::path_indices;
use crate::reach::lemma_closed_holds_reached;
use crate::reach::reaches;

verus! {

/// The greatest weight that a single move can have.
pub const MAX_MOVE_WEIGHT: u32 = u32::MAX;

/// The moves that a weight function may allow: those for which it can
/// answer with a weight when given the cell moved from and the cell moved
/// to, each with its index and its value.
pub open spec fn may_weigh<T, W: Fn((usize, &T), (usize, &T)) -> Option<u32>>(
    cells: Seq<T>,
    weight_function: W,
) -> spec_fn(int, int) -> bool {
    |from: int, to: int|
        exists|weight: u32| #[trigger]
            call_ensures(
                weight_function,
                ((from as usize, &cells[from]), (to as usize, &cells[to])),
                Some(weight),
            )
}

/// The moves that a weight function has to allow: those for which it
/// cannot answer that there is no such move.
pub open spec fn must_weigh<T, W: Fn((usize, &T), (usize, &T)) -> Option<u32>>(
    cells: Seq<T>,
    weight_function: W,
) -> spec_fn(int, int) -> bool {
    |from: int, to: int|
        !call_ensures(
            weight_function,
            ((from as usize, &cells[from]), (to as usize, &cells[to])),
            None::<u32>,
        )
}

/// For each cell whether the search has found a way to it.
pub open spec fn found_flags(origin: Seq<Option<(usize, u128)>>) -> Seq<bool> {
    Seq::new(origin.len(), |i: int| origin[i] is Some)
}

/// The sum of the weights of the ways that the search has found.
pub open spec fn total_weight(origin: Seq<Option<(usize, u128)>>) -> nat
    decreases origin.len(),
{
    if origin.len() == 0 {
        0
    } else {
        total_weight(origin.drop_last()) + match origin.last() {
            Some((_, weight)) => weight as nat,
            None => 0,
        }
    }
}

/// The weight of the way that the search has found to a cell.
pub open spec fn weight_at(origin: Seq<Option<(usize, u128)>>, index: int) -> int {
    origin[index]->Some_0.1 as int
}

/// The cell from which the search has found the way to a cell.
pub open spec fn parent_at(origin: Seq<Option<(usize, u128)>>, index: int) -> int {
    origin[index]->Some_0.0 as int
}

/// The way to the cell `index` comes from a cell next to it that the
/// weight function lets one move from, and the way to that cell weighs
/// less, or as much and was found earlier.
pub open spec fn is_linked<T, W: Fn((usize, &T), (usize, &T)) -> Option<u32>>(
    cells: Seq<T>,
    width: int,
    weight_function: W,
    origin: Seq<Option<(usize, u128)>>,
    stamp: Seq<nat>,
    index: int,
) -> bool {
    let parent = parent_at(origin, index);
    &&& 0 <= parent < cells.len()
    &&& origin[parent] is Some
    &&& is_neighbor(width, cells.len() as int, parent, index)
    &&& may_weigh(cells, weight_function)(parent, index)
    &&& (weight_at(origin, parent) < weight_at(origin, index) || (weight_at(origin, parent)
        == weight_at(origin, index) && stamp[parent] < stamp[index]))
}

/// Every way but the one to the start comes from a cell found before.
pub open spec fn all_linked<T, W: Fn((usize, &T), (usize, &T)) -> Option<u32>>(
    cells: Seq<T>,
    width: int,
    weight_function: W,
    start: int,
    origin: Seq<Option<(usize, u128)>>,
    stamp: Seq<nat>,
) -> bool {
    forall|i: int|
        0 <= i < cells.len() && i != start && (#[trigger] origin[i]) is Some ==> is_linked(
            cells,
            width,
            weight_function,
            origin,
            stamp,
            i,
        )
}

/// What a weighted search knows of the ways it has found: the way to the
/// start is empty, every other way comes from a cell found before, and
/// the queue holds every cell that a way was found to, with a weight that
/// is no less than that of the way found to it by now.
pub open spec fn weighed_state<T, W: Fn((usize, &T), (usize, &T)) -> Option<u32>>(
    cells: Seq<T>,
    width: int,
    weight_function: W,
    start: int,
    origin: Seq<Option<(usize, u128)>>,
    stamp: Seq<nat>,
    clock: nat,
    queue: Seq<(usize, u128)>,
) -> bool {
    let len = cells.len() as int;
    &&& origin.len() == len
    &&& stamp.len() == len
    &&& 0 <= start < len
    &&& origin[start] == Some((start as usize, 0u128))
    &&& all_linked(cells, width, weight_function, start, origin, stamp)
    &&& forall|i: int| 0 <= i < len ==> #[trigger] stamp[i] < clock
    &&& forall|k: int|
        0 <= k < queue.len() ==> (#[trigger] queue[k]).0 < len && origin[queue[k].0 as int] is Some
            && weight_at(origin, queue[k].0 as int) <= queue[k].1
    &&& forall|i: int|
        0 <= i < len && (#[trigger] origin[i]) is Some ==> weight_at(origin, i) <= MAX_MOVE_WEIGHT
            * count_true(found_flags(origin))
    &&& forall|k: int|
        0 <= k < queue.len() ==> (#[trigger] queue[k]).1 <= MAX_MOVE_WEIGHT * count_true(
            found_flags(origin),
        )
    &&& forall|i: int| 0 <= i < len && (#[trigger] origin[i]) is Some ==> in_weighed_queue(queue, i)
}

/// The queue holds an entry for the cell.
#[verifier::opaque]
pub open spec fn in_weighed_queue(queue: Seq<(usize, u128)>, index: int) -> bool {
    exists|k: int| 0 <= k < queue.len() && (#[trigger] queue[k]).0 == index
}

/// Every cell that the weight function has to let one move to from the
/// cell of an entry that has been worked off has been found.
pub open spec fn worked_off<T, W: Fn((usize, &T), (usize, &T)) -> Option<u32>>(
    cells: Seq<T>,
    width: int,
    weight_function: W,
    origin: Seq<Option<(usize, u128)>>,
    queue: Seq<(usize, u128)>,
    cursor: int,
) -> bool {
    forall|j: int, b: int|
        0 <= j < cursor && #[trigger] is_neighbor(
            width,
            cells.len() as int,
            (#[trigger] queue[j]).0 as int,
            b,
        ) && must_weigh(cells, weight_function)(queue[j].0 as int, b) ==> origin[b] is Some
}

/// A way that is found or made lighter changes the sum of the weights by
/// the change of its weight.
pub proof fn lemma_total_weight_update(
    origin: Seq<Option<(usize, u128)>>,
    index: int,
    entry: (usize, u128),
)
    requires
        0 <= index < origin.len(),
    ensures
        total_weight(origin.update(index, Some(entry))) == total_weight(origin) + entry.1 - (
        match origin[index] {
            Some((_, weight)) => weight as int,
            None => 0,
        }),
    decreases origin.len(),
{
    let updated = origin.update(index, Some(entry));
    let last = origin.len() - 1;
    if index == last {
        assert(updated.drop_last() == origin.drop_last());
    } else {
        assert(updated.drop_last() == origin.drop_last().update(index, Some(entry)));
        lemma_total_weight_update(origin.drop_last(), index, entry);
    }
}


/// The search still knows what it knew when it finds a way to a cell for
/// the first time, or a lighter way from another cell than before, through
/// the cell of the entry at the cursor.
pub proof fn lemma_relax<T, W: Fn((usize, &T), (usize, &T)) -> Option<u32>>(
    cells: Seq<T>,
    width: int,
    weight_function: W,
    start: int,
    origin: Seq<Option<(usize, u128)>>,
    stamp: Seq<nat>,
    clock: nat,
    queue: Seq<(usize, u128)>,
    cursor: int,
    neighbor: int,
    edge: u32,
)
    requires
        weighed_state(cells, width, weight_function, start, origin, stamp, clock, queue),
        cells.len() <= usize::MAX,
        0 <= cursor < queue.len(),
        is_neighbor(width, cells.len() as int, queue[cursor].0 as int, neighbor),
        call_ensures(
            weight_function,
            ((queue[cursor].0, &cells[queue[cursor].0 as int]), (neighbor as usize, &cells[neighbor])),
            Some(edge),
        ),
        origin[neighbor] is None || (parent_at(origin, neighbor) != queue[cursor].0 && queue[cursor].1
            + edge < weight_at(origin, neighbor)),
    ensures
        queue[cursor].1 + edge <= u128::MAX,
        weighed_state(
            cells,
            width,
            weight_function,
            start,
            origin.update(neighbor, Some((queue[cursor].0, (queue[cursor].1 + edge) as u128))),
            stamp.update(neighbor, clock),
            clock + 1,
            queue.push((neighbor as usize, (queue[cursor].1 + edge) as u128)),
        ),
        count_true(found_flags(origin)) <= cells.len(),
        origin[neighbor] is None ==> count_true(
            found_flags(
                origin.update(neighbor, Some((queue[cursor].0, (queue[cursor].1 + edge) as u128))),
            ),
        ) == count_true(found_flags(origin)) + 1,
        origin[neighbor] is Some ==> found_flags(
            origin.update(neighbor, Some((queue[cursor].0, (queue[cursor].1 + edge) as u128))),
        ) == found_flags(origin) && total_weight(
            origin.update(neighbor, Some((queue[cursor].0, (queue[cursor].1 + edge) as u128))),
        ) < total_weight(origin),
{
    let len = cells.len() as int;
    let current = queue[cursor].0 as int;
    let count = count_true(found_flags(origin));
    lemma_count_no_more(found_flags(origin), found_flags(origin));
    assert(queue[cursor].1 <= MAX_MOVE_WEIGHT * count);
    assert(MAX_MOVE_WEIGHT * count + edge <= u128::MAX) by (nonlinear_arith)
        requires
            0 <= count <= usize::MAX,
            edge <= MAX_MOVE_WEIGHT,
            MAX_MOVE_WEIGHT == 0xFFFF_FFFF,
            usize::MAX <= 0xFFFF_FFFF_FFFF_FFFF,
    ;
    let value = (queue[cursor].1 + edge) as u128;
    let entry = (queue[cursor].0, value);
    let origin2 = origin.update(neighbor, Some(entry));
    let stamp2 = stamp.update(neighbor, clock);
    let queue2 = queue.push((neighbor as usize, value));
    assert(origin[current] is Some && weight_at(origin, current) <= queue[cursor].1);
    assert(neighbor != current);
    assert(neighbor != start);
    lemma_total_weight_update(origin, neighbor, entry);
    if origin[neighbor] is None {
        assert(found_flags(origin2) == found_flags(origin).update(neighbor, true));
        lemma_count_raise(found_flags(origin), neighbor);
    } else {
        assert(found_flags(origin2) == found_flags(origin));
    }
    let count2 = count_true(found_flags(origin2));
    assert(MAX_MOVE_WEIGHT * count <= MAX_MOVE_WEIGHT * count2) by (nonlinear_arith)
        requires
            count <= count2,
    ;
    assert(origin[neighbor] is None ==> MAX_MOVE_WEIGHT * count2 == MAX_MOVE_WEIGHT * count
        + MAX_MOVE_WEIGHT) by (nonlinear_arith)
        requires
            origin[neighbor] is None ==> count2 == count + 1,
    ;
    assert(may_weigh(cells, weight_function)(current, neighbor));
    assert forall|i: int|
        0 <= i < len && i != start && (#[trigger] origin2[i]) is Some implies is_linked(
        cells,
        width,
        weight_function,
        origin2,
        stamp2,
        i,
    ) by {
        if i == neighbor {
            assert(parent_at(origin2, i) == current);
            assert(origin2[current] == origin[current]);
        } else {
            assert(origin2[i] == origin[i]);
            assert(is_linked(cells, width, weight_function, origin, stamp, i));
            let parent = parent_at(origin, i);
            if parent == neighbor {
                assert(origin[neighbor] is Some);
                assert(weight_at(origin2, neighbor) < weight_at(origin, neighbor));
            } else {
                assert(origin2[parent] == origin[parent]);
            }
        }
    }
    assert forall|k: int| 0 <= k < queue2.len() implies (#[trigger] queue2[k]).0 < len
        && origin2[queue2[k].0 as int] is Some && weight_at(origin2, queue2[k].0 as int)
        <= queue2[k].1 by {
        if k < queue.len() {
            assert(queue2[k] == queue[k]);
            let cell = queue[k].0 as int;
            if cell == neighbor {
                assert(origin[neighbor] is Some);
            } else {
                assert(origin2[cell] == origin[cell]);
            }
        }
    }
    assert forall|i: int| 0 <= i < len && (#[trigger] origin2[i]) is Some implies weight_at(
        origin2,
        i,
    ) <= MAX_MOVE_WEIGHT * count2 by {
        if i != neighbor {
            assert(origin2[i] == origin[i]);
        }
    }
    assert forall|k: int| 0 <= k < queue2.len() implies (#[trigger] queue2[k]).1 <= MAX_MOVE_WEIGHT
        * count2 by {
        if k < queue.len() {
            assert(queue2[k] == queue[k]);
        }
    }
    assert forall|i: int| 0 <= i < len && (#[trigger] origin2[i]) is Some implies in_weighed_queue(
        queue2,
        i,
    ) by {
        reveal(in_weighed_queue);
        if i == neighbor {
            assert(queue2[queue.len() as int].0 == neighbor);
        } else {
            assert(origin2[i] == origin[i]);
            assert(in_weighed_queue(queue, i));
            let k = choose|k: int| 0 <= k < queue.len() && (#[trigger] queue[k]).0 == i;
            assert(queue2[k] == queue[k]);
        }
    }
    assert forall|i: int| 0 <= i < len implies #[trigger] stamp2[i] < clock + 1 by {
        if i != neighbor {
            assert(stamp2[i] == stamp[i]);
        }
    }
}


/// Whether the list holds the index.
fn holds_index(list: &Vec<usize>, index: usize) -> (holds: bool)
    ensures
        holds <==> exists|k: int| 0 <= k < list@.len() && list@[k] == index,
{
    let mut k: usize = 0;
    while k < list.len()
        invariant
            k <= list@.len(),
            forall|j: int| 0 <= j < k ==> list@[j] != index,
        decreases list@.len() - k,
    {
        if list[k] == index {
            return true;
        }
        k += 1;
    }
    false
}

/// The way back from the end along the cells that each way comes from
/// weighs less with every step, or as much with an earlier stamp.
pub open spec fn comes_before(
    origin: Seq<Option<(usize, u128)>>,
    stamp: Seq<nat>,
    earlier: int,
    later: int,
) -> bool {
    weight_at(origin, earlier) < weight_at(origin, later) || (weight_at(origin, earlier)
        == weight_at(origin, later) && stamp[earlier] <= stamp[later])
}

impl<T> Grid<T> {
    /// Walk back from the end to the start along the cells that each way
    /// comes from, and give the way from the start to the end as
    /// coordinates.
    fn backtrack_weighed<W: Fn((usize, &T), (usize, &T)) -> Option<u32>>(
        &self,
        origin: &Vec<Option<(usize, u128)>>,
        start_index: usize,
        end_index: usize,
        weight_function: &W,
        Ghost(stamp): Ghost<Seq<nat>>,
    ) -> (result: Result<Vec<[usize; 2]>, GridError>)
        requires
            self.wf(),
            self.width > 0,
            end_index < self@.len(),
            origin@.len() == self@.len(),
            origin@[end_index as int] is Some,
            all_linked(self@, self.width as int, *weight_function, start_index as int, origin@, stamp),
        ensures
            match result {
                Ok(path) => start_index != end_index && is_path_between(
                    self.width as int,
                    self@.len() as int,
                    may_weigh(self@, *weight_function),
                    start_index as int,
                    end_index as int,
                    path@,
                ),
                Err(error) => error == GridError::LoopDetected && start_index == end_index,
            },
    {
        let ghost cells = self@;
        let ghost width = self.width as int;
        let ghost len = cells.len() as int;
        let ghost may = may_weigh(cells, *weight_function);
        if end_index == start_index {
            return Err(GridError::LoopDetected);
        }
        let mut path_indexes: Vec<usize> = Vec::new();
        path_indexes.push(end_index);
        let mut backtrack_cursor: usize = end_index;
        while backtrack_cursor != start_index
            invariant
                cells == self@,
                width == self.width,
                len == cells.len(),
                origin@.len() == len,
                start_index != end_index,
                may == may_weigh(cells, *weight_function),
                all_linked(cells, width, *weight_function, start_index as int, origin@, stamp),
                backtrack_cursor < len,
                origin@[backtrack_cursor as int] is Some,
                path_indexes@.len() >= 1,
                path_indexes@[0] == end_index,
                path_indexes@[path_indexes@.len() - 1] == backtrack_cursor,
                forall|k: int|
                    0 <= k < path_indexes@.len() ==> (#[trigger] path_indexes@[k]) < len
                        && comes_before(origin@, stamp, backtrack_cursor as int, path_indexes@[k] as int),
                forall|k: int|
                    0 <= k < path_indexes@.len() - 1 ==> is_neighbor(
                        width,
                        len,
                        path_indexes@[k + 1] as int,
                        #[trigger] path_indexes@[k] as int,
                    ) && may(path_indexes@[k + 1] as int, path_indexes@[k] as int),
            decreases weight_at(origin@, backtrack_cursor as int), stamp[backtrack_cursor as int],
        {
            assert(is_linked(cells, width, *weight_function, origin@, stamp, backtrack_cursor as int));
            let previous_index: usize = match origin[backtrack_cursor] {
                Some((previous, _)) => previous,
                None => {
                    return Err(GridError::LoopDetected);
                },
            };
            let repeated: bool = holds_index(&path_indexes, previous_index);
            if repeated {
                proof {
                    let k = choose|k: int|
                        0 <= k < path_indexes@.len() && path_indexes@[k] == previous_index;
                    assert(comes_before(
                        origin@,
                        stamp,
                        backtrack_cursor as int,
                        path_indexes@[k] as int,
                    ));
                }
                return Err(GridError::LoopDetected);
            }
            let ghost before = path_indexes@;
            path_indexes.push(previous_index);
            proof {
                assert forall|k: int| 0 <= k < path_indexes@.len() implies (
                #[trigger] path_indexes@[k]) < len && comes_before(
                    origin@,
                    stamp,
                    previous_index as int,
                    path_indexes@[k] as int,
                ) by {
                    if k < before.len() {
                        assert(path_indexes@[k] == before[k]);
                        assert(comes_before(origin@, stamp, backtrack_cursor as int, before[k] as int));
                    }
                }
                assert forall|k: int| 0 <= k < path_indexes@.len() - 1 implies is_neighbor(
                    width,
                    len,
                    path_indexes@[k + 1] as int,
                    #[trigger] path_indexes@[k] as int,
                ) && may(path_indexes@[k + 1] as int, path_indexes@[k] as int) by {
                    if k < before.len() - 1 {
                        assert(path_indexes@[k] == before[k]);
                        assert(path_indexes@[k + 1] == before[k + 1]);
                    }
                }
            }
            backtrack_cursor = previous_index;
        }
        let count: usize = path_indexes.len();
        let mut path: Vec<[usize; 2]> = Vec::with_capacity(count);
        let mut remaining: usize = count;
        while remaining > 0
            invariant
                cells == self@,
                width == self.width,
                width > 0,
                len == cells.len(),
                self.wf(),
                count == path_indexes@.len(),
                remaining <= count,
                path@.len() == count - remaining,
                forall|k: int| 0 <= k < count ==> (#[trigger] path_indexes@[k]) < len,
                forall|j: int|
                    0 <= j < path@.len() ==> (#[trigger] path@[j])[0] < width && linear_index(
                        width,
                        path@[j][0] as int,
                        path@[j][1] as int,
                    ) == path_indexes@[count - 1 - j],
            decreases remaining,
        {
            remaining -= 1;
            let index: usize = path_indexes[remaining];
            proof {
                lemma_coordinate_round_trip(width, self.height as int, index as int);
            }
            path.push(self.index_to_xy(index));
        }
        proof {
            let walk = path_indices(path@, width);
            assert forall|k: int| 0 <= k < walk.len() implies 0 <= #[trigger] walk[k] < len by {
                assert(walk[k] == path_indexes@[count - 1 - k]);
            }
            assert forall|k: int| 0 <= k < walk.len() - 1 implies is_neighbor(
                width,
                len,
                #[trigger] walk[k],
                walk[k + 1],
            ) && may(walk[k], walk[k + 1]) by {
                assert(walk[k] == path_indexes@[count - 1 - k]);
                assert(walk[k + 1] == path_indexes@[count - 2 - k]);
                assert(is_neighbor(
                    width,
                    len,
                    path_indexes@[(count - 2 - k) + 1] as int,
                    path_indexes@[count - 2 - k] as int,
                ));
            }
            assert(walk[0] == path_indexes@[count - 1]);
            assert(walk.last() == path_indexes@[0]);
        }
        Ok(path)
    }
}


impl<T> Grid<T> {
    /// Find a path from one index to another over the moves that the
    /// weight function gives a weight for. The way to each cell is kept
    /// with the weight it adds up to; a cell is taken up again whenever a
    /// lighter way to it is found from another cell.
    pub fn find_path_weighed<
        U: GridIndexer,
        V: GridIndexer,
        W: Fn((usize, &T), (usize, &T)) -> Option<u32>,
    >(&self, start: U, end: V, weight_function: W) -> (result: Result<Vec<[usize; 2]>, GridError>)
        requires
            self.wf(),
            0 <= start.grid_index(self.width as int) <= usize::MAX,
            0 <= end.grid_index(self.width as int) <= usize::MAX,
            forall|from: (usize, &T), to: (usize, &T)| call_requires(weight_function, (from, to)),
        ensures
            match result {
                Ok(path) => {
                    &&& start.grid_index(self.width as int) < self@.len()
                    &&& end.grid_index(self.width as int) < self@.len()
                    &&& start.grid_index(self.width as int) != end.grid_index(self.width as int)
                    &&& is_path_between(
                        self.width as int,
                        self@.len() as int,
                        may_weigh(self@, weight_function),
                        start.grid_index(self.width as int),
                        end.grid_index(self.width as int),
                        path@,
                    )
                },
                Err(error) => if start.grid_index(self.width as int) >= self@.len()
                    || end.grid_index(self.width as int) >= self@.len() {
                    error == GridError::OutOfBounds
                } else if start.grid_index(self.width as int) == end.grid_index(self.width as int) {
                    error == GridError::LoopDetected
                } else {
                    &&& error == GridError::PathNotFound
                    &&& !reaches(
                        self.width as int,
                        self@.len() as int,
                        must_weigh(self@, weight_function),
                        start.grid_index(self.width as int),
                        end.grid_index(self.width as int),
                    )
                },
            },
    {
        let ghost cells = self@;
        let ghost width = self.width as int;
        assert(self.data.len() == cells.len());
        let len: usize = self.data.len();
        let start_index: usize = start.to_grid_index(self);
        let end_index: usize = end.to_grid_index(self);
        if start_index >= len {
            return Err(GridError::OutOfBounds);
        }
        if end_index >= len {
            return Err(GridError::OutOfBounds);
        }
        assert(self.width > 0 && self.height > 0) by (nonlinear_arith)
            requires
                self.width * self.height > 0,
        ;
        proof {
            assert(len - self.width >= 0) by (nonlinear_arith)
                requires
                    len == self.width * self.height,
                    self.height > 0,
            ;
        }
        let max_x: usize = self.width - 1;
        let max_y: usize = len - self.width;

        let mut origin: Vec<Option<(usize, u128)>> = Vec::with_capacity(len);
        let mut filled: usize = 0;
        while filled < len
            invariant
                filled <= len,
                origin@.len() == filled,
                forall|i: int| 0 <= i < filled ==> origin@[i] is None,
            decreases len - filled,
        {
            origin.push(None);
            filled += 1;
        }
        let ghost blank = origin@;
        origin[start_index] = Some((start_index, 0));
        let mut queue: Vec<(usize, u128)> = Vec::new();
        queue.push((start_index, 0));
        let ghost mut stamp: Seq<nat> = Seq::new(len as nat, |i: int| 0nat);
        let ghost mut clock: nat = 1;
        proof {
            lemma_count_all_clear(found_flags(blank));
            assert(found_flags(origin@) == found_flags(blank).update(start_index as int, true));
            lemma_count_raise(found_flags(blank), start_index as int);
            reveal(in_weighed_queue);
            assert(queue@[0].0 == start_index);
            assert(MAX_MOVE_WEIGHT * 1 >= 0);
        }
        let mut queue_cursor: usize = 0;
        while queue_cursor < queue.len()
            invariant
                self.wf(),
                cells == self@,
                width == self.width,
                len == cells.len(),
                max_x == self.width - 1,
                max_y == len - self.width,
                start_index < len,
                end_index < len,
                start_index == start.grid_index(width),
                end_index == end.grid_index(width),
                forall|from: (usize, &T), to: (usize, &T)| call_requires(weight_function, (from, to)),
                queue_cursor <= queue@.len(),
                count_true(found_flags(origin@)) <= len,
                weighed_state(
                    cells,
                    width,
                    weight_function,
                    start_index as int,
                    origin@,
                    stamp,
                    clock,
                    queue@,
                ),
                worked_off(cells, width, weight_function, origin@, queue@, queue_cursor as int),
                forall|j: int| 0 <= j < queue_cursor ==> (#[trigger] queue@[j]).0 != end_index,
            decreases
                    len - count_true(found_flags(origin@)),
                    total_weight(origin@),
                    queue@.len() - queue_cursor,
        {
            let current_index: usize = queue[queue_cursor].0;
            let current_weight: u128 = queue[queue_cursor].1;
            if current_index == end_index {
                return self.backtrack_weighed(
                    &origin,
                    start_index,
                    end_index,
                    &weight_function,
                    Ghost(stamp),
                );
            }
            let neighbors: Vec<usize> = self._index_neighbors(current_index, max_x, max_y);
            let ghost origin_before = origin@;
            let ghost queue_before = queue@;
            let mut neighbor_cursor: usize = 0;
            while neighbor_cursor < neighbors.len()
                invariant
                    cells == self@,
                    width == self.width,
                    len == cells.len(),
                    start_index < len,
                    current_index < len,
                    forall|from: (usize, &T), to: (usize, &T)|
                        call_requires(weight_function, (from, to)),
                    queue_cursor < queue@.len(),
                    queue@[queue_cursor as int] == (current_index, current_weight),
                    queue@.len() >= queue_before.len(),
                    queue@.take(queue_before.len() as int) == queue_before,
                    neighbor_cursor <= neighbors@.len(),
                    forall|k: int|
                        0 <= k < neighbors@.len() ==> is_neighbor(
                            width,
                            len as int,
                            current_index as int,
                            #[trigger] neighbors@[k] as int,
                        ),
                    count_true(found_flags(origin@)) <= len,
                    count_true(found_flags(origin@)) >= count_true(found_flags(origin_before)),
                    count_true(found_flags(origin@)) == count_true(found_flags(origin_before))
                        ==> total_weight(origin@) <= total_weight(origin_before),
                    count_true(found_flags(origin@)) == count_true(found_flags(origin_before))
                        && total_weight(origin@) == total_weight(origin_before) ==> queue@
                        == queue_before,
                    forall|i: int|
                        0 <= i < len && (#[trigger] origin_before[i]) is Some ==> origin@[i] is Some,
                    weighed_state(
                        cells,
                        width,
                        weight_function,
                        start_index as int,
                        origin@,
                        stamp,
                        clock,
                        queue@,
                    ),
                    forall|k: int|
                        0 <= k < neighbor_cursor && must_weigh(cells, weight_function)(
                            current_index as int,
                            #[trigger] neighbors@[k] as int,
                        ) ==> origin@[neighbors@[k] as int] is Some,
                decreases neighbors@.len() - neighbor_cursor,
            {
                let neighbor_index: usize = neighbors[neighbor_cursor];
                let weight: Option<u32> = weight_function(
                    (current_index, &self.data[current_index]),
                    (neighbor_index, &self.data[neighbor_index]),
                );
                if let Some(weight_addition_to_neighbor) = weight {
                    proof {
                        lemma_count_no_more(found_flags(origin@), found_flags(origin@));
                        assert(current_weight <= MAX_MOVE_WEIGHT * count_true(found_flags(origin@)));
                        assert(MAX_MOVE_WEIGHT * count_true(found_flags(origin@))
                            + weight_addition_to_neighbor <= u128::MAX) by (nonlinear_arith)
                            requires
                                0 <= count_true(found_flags(origin@)) <= usize::MAX,
                                weight_addition_to_neighbor <= MAX_MOVE_WEIGHT,
                                MAX_MOVE_WEIGHT == 0xFFFF_FFFF,
                                usize::MAX <= 0xFFFF_FFFF_FFFF_FFFF,
                        ;
                    }
                    let value_to_neighbor: u128 = current_weight + weight_addition_to_neighbor as u128;
                    let better: bool = match origin[neighbor_index] {
                        None => true,
                        Some((previous, known)) => previous != current_index && value_to_neighbor
                            < known,
                    };
                    if better {
                        proof {
                            lemma_relax(
                                cells,
                                width,
                                weight_function,
                                start_index as int,
                                origin@,
                                stamp,
                                clock,
                                queue@,
                                queue_cursor as int,
                                neighbor_index as int,
                                weight_addition_to_neighbor,
                            );
                            assert(queue@.push((neighbor_index, value_to_neighbor)).take(
                                queue_before.len() as int,
                            ) == queue@.take(queue_before.len() as int));
                            stamp = stamp.update(neighbor_index as int, clock);
                            clock = clock + 1;
                        }
                        let ghost step_origin = origin@;
                        origin[neighbor_index] = Some((current_index, value_to_neighbor));
                        queue.push((neighbor_index, value_to_neighbor));
                        proof {
                            lemma_count_no_more(found_flags(origin@), found_flags(origin@));
                            assert forall|i: int|
                                0 <= i < len && (#[trigger] origin_before[i]) is Some implies origin@[i] is Some by {
                                assert(step_origin[i] is Some);
                            }
                            assert forall|k: int|
                                0 <= k < neighbor_cursor && must_weigh(cells, weight_function)(
                                    current_index as int,
                                    #[trigger] neighbors@[k] as int,
                                ) implies origin@[neighbors@[k] as int] is Some by {
                                assert(step_origin[neighbors@[k] as int] is Some);
                            }
                        }
                    }
                }
                neighbor_cursor += 1;
            }
            proof {
                lemma_neighbors_of(width, self.height as int, len as int, current_index as int);
                assert forall|j: int, b: int|
                    0 <= j < queue_cursor + 1 && #[trigger] is_neighbor(
                        width,
                        len as int,
                        (#[trigger] queue@[j]).0 as int,
                        b,
                    ) && must_weigh(cells, weight_function)(
                        queue@[j].0 as int,
                        b,
                    ) implies origin@[b] is Some by {
                    assert(queue@[j] == queue@.take(queue_before.len() as int)[j]);
                    if j < queue_cursor {
                        assert(is_neighbor(width, len as int, queue_before[j].0 as int, b));
                        assert(origin_before[b] is Some);
                    } else {
                        let list = neighbors_of(width, len as int, current_index as int);
                        assert(list.contains(b));
                        let k = choose|k: int| 0 <= k < list.len() && list[k] == b;
                        assert(neighbors@.map_values(|n: usize| n as int)[k] == neighbors@[k] as int);
                    }
                }
                assert forall|j: int| 0 <= j < queue_cursor + 1 implies (#[trigger] queue@[j]).0
                    != end_index by {
                    assert(queue@[j] == queue@.take(queue_before.len() as int)[j]);
                }
            }
            queue_cursor += 1;
        }
        proof {
            let must = must_weigh(cells, weight_function);
            if start_index != end_index && reaches(
                width,
                len as int,
                must,
                start_index as int,
                end_index as int,
            ) {
                let found = found_flags(origin@);
                reveal(in_weighed_queue);
                assert forall|a: int, b: int|
                    0 <= a < found.len() && found[a] && #[trigger] is_neighbor(
                        width,
                        found.len() as int,
                        a,
                        b,
                    ) && must(a, b) implies found[b] by {
                    assert(in_weighed_queue(queue@, a));
                    let j = choose|j: int| 0 <= j < queue@.len() && (#[trigger] queue@[j]).0 == a;
                    assert(is_neighbor(width, len as int, queue@[j].0 as int, b));
                }
                lemma_closed_holds_reached(found, width, must, start_index as int);
                assert(found[end_index as int]);
                assert(in_weighed_queue(queue@, end_index as int));
            }
        }
        if start_index == end_index {
            Err(GridError::LoopDetected)
        } else {
            Err(GridError::PathNotFound)
        }
    }
}

} // verus!
