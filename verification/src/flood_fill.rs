use vstd::prelude::*;
use vstd::std_specs::cmp::PartialEqSpec;
use crate::counting::clear_flags;
use crate::counting::count_true;
use crate::counting::lemma_count_no_more;
use crate::counting::lemma_count_raise;
use crate::grid::Grid;
use crate::indexer::GridIndexer;
use crate::indexer::is_neighbor;
use crate::indexer::lemma_neighbors_of;
use crate::indexer::neighbors_of;
use crate::reach::lemma_closed_holds_reached;
use crate::reach::lemma_reaches_next;
use crate::reach::lemma_reaches_self;
use crate::reach::reaches;
use crate::region::GridRegion;

verus! {

/// The moves of a flood fill by value: a move is allowed when the cell
/// moved to equals the seed.
pub open spec fn eq_step<T: PartialEq>(cells: Seq<T>, seed: T) -> spec_fn(int, int) -> bool {
    |from: int, to: int| cells[to].eq_spec(&seed)
}

/// The cell belongs to the region of cells equal to the start cell that
/// hang together with the start cell.
pub open spec fn in_eq_region<T: PartialEq>(cells: Seq<T>, width: int, start: int, index: int) -> bool {
    &&& cells[start].eq_spec(&cells[start])
    &&& reaches(width, cells.len() as int, eq_step(cells, cells[start]), start, index)
}

/// The list holds the index.
#[verifier::opaque]
pub open spec fn in_queue(queue: Seq<usize>, index: int) -> bool {
    exists|k: int| 0 <= k < queue.len() && #[trigger] queue[k] == index
}

/// A list that is one index longer holds what it held and the new index.
pub proof fn lemma_queue_push(queue: Seq<usize>, index: usize)
    ensures
        in_queue(queue.push(index), index as int),
        forall|i: int| #[trigger] in_queue(queue, i) ==> in_queue(queue.push(index), i),
{
    reveal(in_queue);
    let pushed = queue.push(index);
    assert(pushed[queue.len() as int] == index);
    assert forall|i: int| #[trigger] in_queue(queue, i) implies in_queue(pushed, i) by {
        let k = choose|k: int| 0 <= k < queue.len() && #[trigger] queue[k] == i;
        assert(pushed[k] == queue[k]);
    }
}

impl<T: PartialEq> Grid<T> {
    /// Starting at the selected pixel, create a list of all attached pixels that are the same. This function is very similar to the `region_at` function. Because this function does not need to check nodes for multiple different values, it is more efficient.
    pub fn region_at_eq<U: GridIndexer>(&self, start: U) -> (region: GridRegion)
        requires
            self.wf(),
            0 <= start.grid_index(self.width as int) < self@.len(),
        ensures
            region.wf(),
            region.grid.width == self.width,
            region.grid.height == self.height,
            T::obeys_eq_spec() ==> forall|i: int|
                0 <= i < self@.len() ==> (#[trigger] region.grid@[i] <==> in_eq_region(
                    self@,
                    self.width as int,
                    start.grid_index(self.width as int),
                    i,
                )),
    {
        assert(self.data.len() == self@.len());
        assert(self.width > 0) by (nonlinear_arith)
            requires
                self.width * self.height > 0,
        ;
        let start_index: usize = start.to_grid_index(self);
        let len: usize = self.data.len();
        proof {
            assert(len - self.width >= 0) by (nonlinear_arith)
                requires
                    len == self.width * self.height,
                    self.height > 0,
            ;
        }
        let max_x: usize = self.width - 1;
        let max_y: usize = len - self.width;
        let ghost cells = self@;
        let ghost width = self.width as int;
        let ghost step = eq_step(cells, cells[start_index as int]);
        let target_value: &T = &self.data[start_index];

        let mut marked: Vec<bool> = clear_flags(len);
        let mut queued: Vec<bool> = clear_flags(len);
        let mut queue: Vec<usize> = Vec::new();
        proof {
            lemma_queue_push(queue@, start_index);
            lemma_count_raise(queued@, start_index as int);
            lemma_reaches_self(width, len as int, step, start_index as int);
        }
        queue.push(start_index);
        queued[start_index] = true;
        let mut queue_cursor: usize = 0;
        while queue_cursor < queue.len()
            invariant
                self.wf(),
                cells == self@,
                width == self.width,
                len == cells.len(),
                max_x == self.width - 1,
                max_y == len - self.width,
                self.width > 0,
                start_index < len,
                step == eq_step(cells, cells[start_index as int]),
                *target_value == cells[start_index as int],
                marked@.len() == len,
                queued@.len() == len,
                queue_cursor <= queue@.len(),
                queue@.len() == count_true(queued@),
                queue@.len() <= len,
                queue@.len() > 0,
                queue@[0] == start_index,
                queue@.len() > 1 ==> marked@[start_index as int],
                forall|k: int|
                    0 <= k < queue@.len() ==> #[trigger] queue@[k] < len && queued@[queue@[k] as int],
                forall|i: int| 0 <= i < len && #[trigger] marked@[i] ==> queued@[i],
                forall|i: int| 0 <= i < len && #[trigger] queued@[i] ==> in_queue(queue@, i),
                forall|i: int| 0 <= i < len && #[trigger] marked@[i] ==> in_queue(
                    queue@.take(queue_cursor as int),
                    i,
                ),
                T::obeys_eq_spec() ==> forall|k: int|
                    0 <= k < queue_cursor ==> (marked@[#[trigger] queue@[k] as int]
                        <==> cells[queue@[k] as int].eq_spec(&cells[start_index as int])),
                T::obeys_eq_spec() ==> forall|k: int|
                    0 <= k < queue@.len() && cells[#[trigger] queue@[k] as int].eq_spec(
                        &cells[start_index as int],
                    ) ==> reaches(width, len as int, step, start_index as int, queue@[k] as int),
                forall|a: int, b: int|
                    0 <= a < len && marked@[a] && #[trigger] is_neighbor(width, len as int, a, b)
                        ==> queued@[b],
            decreases len - queue_cursor,
        {
            let current_index: usize = queue[queue_cursor];
            let ghost processed = queue@.take(queue_cursor as int);
            let ghost processed_next = queue@.take(queue_cursor + 1);
            proof {
                reveal(in_queue);
                assert(processed_next == processed.push(current_index));
                lemma_queue_push(processed, current_index);
            }
            if self.data[current_index] == *target_value {
                let neighbors: Vec<usize> = self._index_neighbors(current_index, max_x, max_y);
                let mut neighbor_cursor: usize = 0;
                while neighbor_cursor < neighbors.len()
                    invariant
                        self.wf(),
                        cells == self@,
                        width == self.width,
                        len == cells.len(),
                        self.width > 0,
                        start_index < len,
                        current_index < len,
                        step == eq_step(cells, cells[start_index as int]),
                        marked@.len() == len,
                        queued@.len() == len,
                        queue_cursor < queue@.len(),
                        queue@[queue_cursor as int] == current_index,
                        processed == queue@.take(queue_cursor as int),
                        queue@.len() == count_true(queued@),
                        queue@.len() <= len,
                        queue@[0] == start_index,
                        queue@.len() > 1 ==> marked@[start_index as int] || current_index
                            == start_index,
                        neighbor_cursor <= neighbors@.len(),
                        forall|k: int|
                            0 <= k < neighbors@.len() ==> is_neighbor(
                                width,
                                len as int,
                                current_index as int,
                                #[trigger] neighbors@[k] as int,
                            ),
                        forall|k: int|
                            0 <= k < queue@.len() ==> #[trigger] queue@[k] < len
                                && queued@[queue@[k] as int],
                        forall|i: int| 0 <= i < len && #[trigger] marked@[i] ==> queued@[i],
                        forall|i: int| 0 <= i < len && #[trigger] queued@[i] ==> in_queue(queue@, i),
                        forall|i: int|
                            0 <= i < len && #[trigger] marked@[i] ==> in_queue(processed, i),
                        cells[current_index as int].eq_spec(&cells[start_index as int])
                            || !T::obeys_eq_spec(),
                        reaches(width, len as int, step, start_index as int, current_index as int)
                            || !T::obeys_eq_spec(),
                        T::obeys_eq_spec() ==> forall|k: int|
                            0 <= k < queue_cursor ==> (marked@[#[trigger] queue@[k] as int]
                                <==> cells[queue@[k] as int].eq_spec(&cells[start_index as int])),
                        T::obeys_eq_spec() ==> forall|k: int|
                            0 <= k < queue@.len() && cells[#[trigger] queue@[k] as int].eq_spec(
                                &cells[start_index as int],
                            ) ==> reaches(
                                width,
                                len as int,
                                step,
                                start_index as int,
                                queue@[k] as int,
                            ),
                        forall|a: int, b: int|
                            0 <= a < len && marked@[a] && #[trigger] is_neighbor(
                                width,
                                len as int,
                                a,
                                b,
                            ) ==> queued@[b],
                        forall|k: int|
                            0 <= k < neighbor_cursor ==> queued@[#[trigger] neighbors@[k] as int],
                    decreases neighbors@.len() - neighbor_cursor,
                {
                    let neighbor_index: usize = neighbors[neighbor_cursor];
                    if !marked[neighbor_index] && !queued[neighbor_index] {
                        proof {
                            lemma_queue_push(queue@, neighbor_index);
                            lemma_count_raise(queued@, neighbor_index as int);
                            assert(queue@.push(neighbor_index).take(queue_cursor as int)
                                == processed);
                            if T::obeys_eq_spec() && cells[neighbor_index as int].eq_spec(
                                &cells[start_index as int],
                            ) {
                                lemma_reaches_next(
                                    width,
                                    len as int,
                                    step,
                                    start_index as int,
                                    current_index as int,
                                    neighbor_index as int,
                                );
                            }
                        }
                        queue.push(neighbor_index);
                        queued[neighbor_index] = true;
                    }
                    neighbor_cursor += 1;
                }
                proof {
                    lemma_neighbors_of(width, self.height as int, len as int, current_index as int);
                    assert forall|b: int| #[trigger]
                        is_neighbor(width, len as int, current_index as int, b) implies queued@[b] by {
                        let list = neighbors_of(width, len as int, current_index as int);
                        assert(list.contains(b));
                        let k = choose|k: int| 0 <= k < list.len() && list[k] == b;
                        assert(neighbors@.map_values(|n: usize| n as int)[k] == neighbors@[k] as int);
                    }
                }
                marked[current_index] = true;
            }
            queue_cursor += 1;
            proof {
                assert(queue@.take(queue_cursor as int) == processed_next);
            }
        }
        proof {
            assert(queue@.take(queue@.len() as int) == queue@);
            if T::obeys_eq_spec() {
                reveal(in_queue);
                assert forall|i: int| 0 <= i < len implies (#[trigger] marked@[i] <==> in_eq_region(
                    cells,
                    width,
                    start_index as int,
                    i,
                )) by {
                    if marked@[i] {
                        assert(in_queue(queue@, i));
                        let k = choose|k: int| 0 <= k < queue@.len() && #[trigger] queue@[k] == i;
                        assert(marked@[queue@[k] as int]);
                        assert(marked@[queue@[0] as int] || queue@.len() == 1);
                    }
                    if in_eq_region(cells, width, start_index as int, i) {
                        assert(marked@[queue@[0] as int]);
                        assert forall|a: int, b: int|
                            0 <= a < marked@.len() && marked@[a] && #[trigger] is_neighbor(
                                width,
                                marked@.len() as int,
                                a,
                                b,
                            ) && step(a, b) implies marked@[b] by {
                            assert(queued@[b]);
                            assert(in_queue(queue@, b));
                            let k = choose|k: int| 0 <= k < queue@.len() && #[trigger] queue@[k] == b;
                            assert(marked@[queue@[k] as int]);
                        }
                        lemma_closed_holds_reached(marked@, width, step, start_index as int);
                    }
                }
            }
        }
        GridRegion::new(Grid::new(marked, self.width, self.height))
    }
}


/// The moves that a comparing function may allow: those for which it can
/// answer `true` when given the value of the cell moved from and the value
/// of the cell moved to.
pub open spec fn may_step<T, F: Fn(&T, &T) -> bool>(cells: Seq<T>, comparing_function: F) -> spec_fn(
    int,
    int,
) -> bool {
    |from: int, to: int| call_ensures(comparing_function, (&cells[from], &cells[to]), true)
}

/// The moves that a comparing function has to allow: those for which it
/// cannot answer `false`.
pub open spec fn must_step<T, F: Fn(&T, &T) -> bool>(cells: Seq<T>, comparing_function: F) -> spec_fn(
    int,
    int,
) -> bool {
    |from: int, to: int| !call_ensures(comparing_function, (&cells[from], &cells[to]), false)
}

/// The queue holds, at the cursor or behind it, the cell `to` as found from
/// the cell `from`.
#[verifier::opaque]
pub open spec fn is_pending(queue: Seq<(usize, usize)>, cursor: int, from: int, to: int) -> bool {
    exists|k: int|
        cursor <= k < queue.len() && (#[trigger] queue[k]).0 == to && queue[k].1 == from
}

/// What was pending stays pending when an entry is added, and the entry is
/// pending too.
pub proof fn lemma_pending_push(queue: Seq<(usize, usize)>, cursor: int, entry: (usize, usize))
    requires
        0 <= cursor <= queue.len(),
    ensures
        is_pending(queue.push(entry), cursor, entry.1 as int, entry.0 as int),
        forall|a: int, b: int| #[trigger]
            is_pending(queue, cursor, a, b) ==> is_pending(queue.push(entry), cursor, a, b),
{
    reveal(is_pending);
    let pushed = queue.push(entry);
    assert(pushed[queue.len() as int] == entry);
    assert forall|a: int, b: int| #[trigger] is_pending(queue, cursor, a, b) implies is_pending(
        pushed,
        cursor,
        a,
        b,
    ) by {
        let k = choose|k: int|
            cursor <= k < queue.len() && (#[trigger] queue[k]).0 == b && queue[k].1 == a;
        assert(pushed[k] == queue[k]);
    }
}

/// What was pending is still pending behind the entry at the cursor, or is
/// that entry.
pub proof fn lemma_pending_advance(queue: Seq<(usize, usize)>, cursor: int)
    requires
        0 <= cursor < queue.len(),
    ensures
        forall|a: int, b: int| #[trigger]
            is_pending(queue, cursor, a, b) ==> is_pending(queue, cursor + 1, a, b) || (
            queue[cursor].0 == b && queue[cursor].1 == a),
        forall|a: int, b: int| !#[trigger] is_pending(queue, queue.len() as int, a, b),
{
    reveal(is_pending);
}

/// Add to the queue every neighbour that is not marked yet, as found from
/// the current cell.
fn push_unmarked(
    queue: &mut Vec<(usize, usize)>,
    neighbors: &Vec<usize>,
    marked: &Vec<bool>,
    current_index: usize,
    Ghost(cursor): Ghost<int>,
    Ghost(width): Ghost<int>,
)
    requires
        0 <= cursor <= old(queue)@.len(),
        current_index < marked@.len(),
        neighbors@.len() <= 4,
        forall|k: int|
            0 <= k < neighbors@.len() ==> is_neighbor(
                width,
                marked@.len() as int,
                current_index as int,
                #[trigger] neighbors@[k] as int,
            ),
    ensures
        final(queue)@.len() >= old(queue)@.len(),
        final(queue)@.len() <= old(queue)@.len() + 4,
        final(queue)@.take(old(queue)@.len() as int) == old(queue)@,
        forall|k: int|
            old(queue)@.len() <= k < final(queue)@.len() ==> (#[trigger] final(queue)@[k]).1
                == current_index && is_neighbor(
                width,
                marked@.len() as int,
                current_index as int,
                final(queue)@[k].0 as int,
            ),
        forall|a: int, b: int| #[trigger]
            is_pending(old(queue)@, cursor, a, b) ==> is_pending(final(queue)@, cursor, a, b),
        forall|k: int|
            0 <= k < neighbors@.len() ==> marked@[#[trigger] neighbors@[k] as int] || is_pending(
                final(queue)@,
                cursor,
                current_index as int,
                neighbors@[k] as int,
            ),
{
    let ghost queue_before = queue@;
    let mut neighbor_cursor: usize = 0;
    while neighbor_cursor < neighbors.len()
        invariant
            0 <= cursor <= queue_before.len(),
            current_index < marked@.len(),
            neighbors@.len() <= 4,
            queue@.len() >= queue_before.len(),
            queue@.len() <= queue_before.len() + neighbor_cursor,
            queue@.take(queue_before.len() as int) == queue_before,
            neighbor_cursor <= neighbors@.len(),
            forall|k: int|
                0 <= k < neighbors@.len() ==> is_neighbor(
                    width,
                    marked@.len() as int,
                    current_index as int,
                    #[trigger] neighbors@[k] as int,
                ),
            forall|k: int|
                queue_before.len() <= k < queue@.len() ==> (#[trigger] queue@[k]).1 == current_index
                    && is_neighbor(
                    width,
                    marked@.len() as int,
                    current_index as int,
                    queue@[k].0 as int,
                ),
            forall|a: int, b: int| #[trigger]
                is_pending(queue_before, cursor, a, b) ==> is_pending(queue@, cursor, a, b),
            forall|k: int|
                0 <= k < neighbor_cursor ==> marked@[#[trigger] neighbors@[k] as int] || is_pending(
                    queue@,
                    cursor,
                    current_index as int,
                    neighbors@[k] as int,
                ),
        decreases neighbors@.len() - neighbor_cursor,
    {
        let neighbor_index: usize = neighbors[neighbor_cursor];
        if !marked[neighbor_index] {
            proof {
                lemma_pending_push(queue@, cursor, (neighbor_index, current_index));
                assert(queue@.push((neighbor_index, current_index)).take(queue_before.len() as int)
                    == queue@.take(queue_before.len() as int));
            }
            queue.push((neighbor_index, current_index));
        }
        neighbor_cursor += 1;
    }
}

impl<T: PartialEq> Grid<T> {
    /// Starting at the selected pixel, create a list of all attached pixels that match the comparing function. In the comparing function, the first value is the value of the neighbor that added this node to the queue. The second value is the value of the current node.
    pub fn region_at<U: GridIndexer, V: Fn(&T, &T) -> bool>(&self, start: U, comparing_function: V) -> (region:
        GridRegion)
        requires
            self.wf(),
            0 <= start.grid_index(self.width as int) < self@.len(),
            forall|from: &T, to: &T| call_requires(comparing_function, (from, to)),
        ensures
            region.wf(),
            region.grid.width == self.width,
            region.grid.height == self.height,
            forall|i: int|
                0 <= i < self@.len() && #[trigger] region.grid@[i] ==> reaches(
                    self.width as int,
                    self@.len() as int,
                    may_step(self@, comparing_function),
                    start.grid_index(self.width as int),
                    i,
                ),
            forall|i: int|
                0 <= i < self@.len() && reaches(
                    self.width as int,
                    self@.len() as int,
                    must_step(self@, comparing_function),
                    start.grid_index(self.width as int),
                    i,
                ) ==> #[trigger] region.grid@[i],
    {
        assert(self.data.len() == self@.len());
        assert(self.width > 0) by (nonlinear_arith)
            requires
                self.width * self.height > 0,
        ;
        let start_index: usize = start.to_grid_index(self);
        let len: usize = self.data.len();
        proof {
            assert(len - self.width >= 0) by (nonlinear_arith)
                requires
                    len == self.width * self.height,
                    self.height > 0,
            ;
        }
        let max_x: usize = self.width - 1;
        let max_y: usize = len - self.width;
        let ghost cells = self@;
        let ghost width = self.width as int;
        let ghost may = may_step(cells, comparing_function);

        let mut marked: Vec<bool> = clear_flags(len);
        let mut queue: Vec<(usize, usize)> = Vec::new();
        queue.push((start_index, start_index));
        let mut queue_cursor: usize = 0;
        proof {
            lemma_count_no_more(marked@, marked@);
        }
        while queue_cursor < queue.len()
            invariant
                self.wf(),
                cells == self@,
                width == self.width,
                len == cells.len(),
                max_x == self.width - 1,
                max_y == len - self.width,
                self.width > 0,
                start_index < len,
                may == may_step(cells, comparing_function),
                forall|from: &T, to: &T| call_requires(comparing_function, (from, to)),
                marked@.len() == len,
                count_true(marked@) <= len,
                queue_cursor <= queue@.len(),
                queue@.len() > 0,
                queue@[0] == (start_index, start_index),
                queue_cursor > 0 ==> marked@[start_index as int],
                queue_cursor == 0 ==> queue@.len() == 1,
                forall|k: int|
                    0 <= k < queue@.len() ==> (#[trigger] queue@[k]).0 < len && queue@[k].1 < len,
                forall|k: int|
                    1 <= k < queue@.len() ==> marked@[(#[trigger] queue@[k]).1 as int] && is_neighbor(
                        width,
                        len as int,
                        queue@[k].1 as int,
                        queue@[k].0 as int,
                    ),
                forall|i: int|
                    0 <= i < len && #[trigger] marked@[i] ==> reaches(
                        width,
                        len as int,
                        may,
                        start_index as int,
                        i,
                    ),
                forall|a: int, b: int|
                    0 <= a < len && marked@[a] && #[trigger] is_neighbor(width, len as int, a, b)
                        ==> marked@[b] || call_ensures(
                        comparing_function,
                        (&cells[a], &cells[b]),
                        false,
                    ) || is_pending(queue@, queue_cursor as int, a, b),
            decreases 4 * (len - count_true(marked@)) + queue@.len() - queue_cursor,
        {
            let current_index: usize = queue[queue_cursor].0;
            let source_index: usize = queue[queue_cursor].1;
            proof {
                lemma_pending_advance(queue@, queue_cursor as int);
            }
            if !marked[current_index] {
                let accepted: bool = comparing_function(
                    &self.data[source_index],
                    &self.data[current_index],
                ) || queue_cursor == 0;
                if accepted {
                    proof {
                        if queue_cursor == 0 {
                            lemma_reaches_self(width, len as int, may, start_index as int);
                        } else {
                            lemma_reaches_next(
                                width,
                                len as int,
                                may,
                                start_index as int,
                                source_index as int,
                                current_index as int,
                            );
                        }
                    }
                    let neighbors: Vec<usize> = self._index_neighbors(current_index, max_x, max_y);
                    let ghost queue_before = queue@;
                    let ghost marked_before = marked@;
                    push_unmarked(
                        &mut queue,
                        &neighbors,
                        &marked,
                        current_index,
                        Ghost(queue_cursor + 1),
                        Ghost(width),
                    );
                    proof {
                        lemma_neighbors_of(width, self.height as int, len as int, current_index as int);
                        assert forall|b: int| #[trigger]
                            is_neighbor(width, len as int, current_index as int, b) implies marked@[b]
                            || is_pending(queue@, queue_cursor + 1, current_index as int, b) by {
                            let list = neighbors_of(width, len as int, current_index as int);
                            assert(list.contains(b));
                            let k = choose|k: int| 0 <= k < list.len() && list[k] == b;
                            assert(neighbors@.map_values(|n: usize| n as int)[k] == neighbors@[k] as int);
                        }
                        lemma_count_raise(marked@, current_index as int);
                        assert forall|k: int| 0 <= k < queue_before.len() implies #[trigger] queue@[k]
                            == queue_before[k] by {
                            assert(queue@.take(queue_before.len() as int)[k] == queue@[k]);
                        }
                    }
                    marked[current_index] = true;
                }
            }
            queue_cursor += 1;
        }
        proof {
            lemma_pending_advance(queue@.push((0, 0)), queue@.len() as int);
            reveal(is_pending);
            let must = must_step(cells, comparing_function);
            assert forall|a: int, b: int|
                0 <= a < marked@.len() && marked@[a] && #[trigger] is_neighbor(
                    width,
                    marked@.len() as int,
                    a,
                    b,
                ) && must(a, b) implies marked@[b] by {
                assert(!is_pending(queue@, queue_cursor as int, a, b));
            }
            lemma_closed_holds_reached(marked@, width, must, start_index as int);
        }
        GridRegion::new(Grid::new(marked, self.width, self.height))
    }
}

} // verus!
