use vstd::prelude::*;
use vstd::std_specs::cmp::PartialEqSpec;
use crate::counting::count_true;
use crate::counting::lemma_count_all_clear;
use crate::counting::lemma_count_raise;
use crate::errors::GridError;
use crate::flood_fill::eq_step;
use crate::flood_fill::in_eq_region;
use crate::grid::Grid;
use crate::indexer::GridIndexer;
use crate::indexer::is_neighbor;
use crate::indexer::lemma_coordinate_round_trip;
use crate::indexer::lemma_neighbors_of;
use crate::indexer::linear_index;
use crate::indexer::neighbors_of;
use crate::reach::is_walk;
use crate::reach::lemma_closed_holds_reached;
use crate::reach::reaches;
use crate::region::GridRegion;

verus! {

/// The moves inside a region: a move is allowed when the cell moved to
/// belongs to the region.
pub open spec fn region_step(cells: Seq<bool>) -> spec_fn(int, int) -> bool {
    |from: int, to: int| cells[to]
}

/// The linear indices of a list of coordinates.
pub open spec fn path_indices(path: Seq<[usize; 2]>, width: int) -> Seq<int> {
    Seq::new(path.len(), |k: int| linear_index(width, path[k][0] as int, path[k][1] as int))
}

/// The coordinates name cells of the grid, the first of them the start and
/// the last the end, each next to the one before it, and every cell moved
/// to is one that `step` allows.
pub open spec fn is_path_between(
    width: int,
    len: int,
    step: spec_fn(int, int) -> bool,
    start: int,
    end: int,
    path: Seq<[usize; 2]>,
) -> bool {
    &&& forall|k: int| 0 <= k < path.len() ==> (#[trigger] path[k])[0] < width
    &&& is_walk(path_indices(path, width), width, len, step)
    &&& path_indices(path, width)[0] == start
    &&& path_indices(path, width).last() == end
}

/// No walk from the start to the end makes fewer than `moves` moves.
pub open spec fn is_least_moves(
    width: int,
    len: int,
    step: spec_fn(int, int) -> bool,
    start: int,
    end: int,
    moves: int,
) -> bool {
    forall|other: Seq<int>| #[trigger]
        is_walk(other, width, len, step) && other[0] == start && other.last() == end
            ==> other.len() - 1 >= moves
}

/// The entry of the queue was found from a cell next to it that stands
/// earlier in the queue and was found after one move less.
pub open spec fn has_parent(
    len: int,
    width: int,
    queue: Seq<usize>,
    origin: Seq<Option<usize>>,
    depth: Seq<nat>,
    position: Seq<int>,
    k: int,
) -> bool {
    let parent = origin[queue[k] as int]->Some_0 as int;
    &&& origin[queue[k] as int] is Some
    &&& parent < len
    &&& 0 <= position[parent] < k
    &&& depth[k] == depth[position[parent]] + 1
    &&& is_neighbor(width, len, parent, queue[k] as int)
}

/// Where only one walk leads from the start to the end in the least number
/// of moves, every path between them that makes the least number of moves
/// is that walk, cell for cell.
pub proof fn lemma_unique_shortest_path(
    width: int,
    len: int,
    step: spec_fn(int, int) -> bool,
    start: int,
    end: int,
    path: Seq<[usize; 2]>,
    only: Seq<int>,
)
    requires
        is_path_between(width, len, step, start, end, path),
        is_least_moves(width, len, step, start, end, path.len() - 1),
        is_walk(only, width, len, step),
        only[0] == start,
        only.last() == end,
        forall|other: Seq<int>| #[trigger]
            is_walk(other, width, len, step) && other[0] == start && other.last() == end
                && other.len() <= only.len() ==> other == only,
    ensures
        path_indices(path, width) == only,
{
    let walk = path_indices(path, width);
    assert(is_walk(only, width, len, step) && only[0] == start && only.last() == end);
    assert(only.len() - 1 >= path.len() - 1);
    assert(walk.len() == path.len());
    assert(is_walk(walk, width, len, step));
}

/// What a breadth-first search through a region knows while it runs. The
/// queue lists the cells found so far in the order in which they were found;
/// `origin` tells for each of them from which cell, `depth` after how many
/// moves, and `position` where in the queue it stands. The entries before
/// the cursor have been worked off.
pub open spec fn search_state(
    cells: Seq<bool>,
    width: int,
    start: int,
    queue: Seq<usize>,
    origin: Seq<Option<usize>>,
    depth: Seq<nat>,
    position: Seq<int>,
    cursor: int,
) -> bool {
    let len = cells.len() as int;
    &&& origin.len() == len
    &&& position.len() == len
    &&& depth.len() == queue.len()
    &&& 0 <= cursor <= queue.len()
    &&& queue.len() > 0
    &&& queue[0] == start
    &&& depth[0] == 0
    &&& origin[start] == Some(start as usize)
    &&& forall|k: int|
        0 <= k < queue.len() ==> (#[trigger] queue[k]) < len && cells[queue[k] as int]
            && position[queue[k] as int] == k
    &&& forall|i: int|
        0 <= i < len ==> (origin[i] is Some <==> #[trigger] position[i] >= 0) && position[i]
            < queue.len() && (position[i] >= 0 ==> queue[position[i]] == i)
    &&& forall|k: int|
        1 <= k < queue.len() ==> #[trigger] has_parent(len, width, queue, origin, depth, position, k)
    &&& forall|j: int, k: int| 0 <= j <= k < queue.len() ==> #[trigger] depth[j] <= #[trigger] depth[k]
    &&& forall|k: int|
        0 <= k < queue.len() && cursor < queue.len() ==> #[trigger] depth[k] <= depth[cursor] + 1
    &&& forall|j: int, b: int|
        0 <= j < cursor && #[trigger] is_neighbor(width, len, queue[j] as int, b) && cells[b]
            ==> position[b] >= 0 && depth[position[b]] <= depth[j] + 1
}

/// A cell that a walk from the start reaches after fewer moves than the
/// entry at the cursor took has been found no later than after as many
/// moves.
pub proof fn lemma_walk_found(
    cells: Seq<bool>,
    width: int,
    start: int,
    queue: Seq<usize>,
    origin: Seq<Option<usize>>,
    depth: Seq<nat>,
    position: Seq<int>,
    cursor: int,
    walk: Seq<int>,
    moves: int,
)
    requires
        search_state(cells, width, start, queue, origin, depth, position, cursor),
        cursor < queue.len(),
        is_walk(walk, width, cells.len() as int, region_step(cells)),
        walk[0] == start,
        0 <= moves < walk.len(),
        moves < depth[cursor],
    ensures
        position[walk[moves]] >= 0,
        depth[position[walk[moves]]] <= moves,
    decreases moves,
{
    if moves == 0 {
        assert(position[queue[0] as int] == 0);
    } else {
        lemma_walk_found(cells, width, start, queue, origin, depth, position, cursor, walk, moves - 1);
        let before = walk[moves - 1];
        let j = position[before];
        assert(queue[j] == before);
        if j >= cursor {
            assert(depth[cursor] <= depth[j]);
        }
        assert(is_neighbor(width, cells.len() as int, walk[moves - 1], walk[moves - 1 + 1]));
        assert(region_step(cells)(walk[moves - 1], walk[moves - 1 + 1]));
        assert(is_neighbor(width, cells.len() as int, queue[j] as int, walk[moves]));
    }
}

/// The entry at the cursor was found after the least number of moves that
/// lead from the start to its cell.
pub proof fn lemma_search_shortest(
    cells: Seq<bool>,
    width: int,
    start: int,
    queue: Seq<usize>,
    origin: Seq<Option<usize>>,
    depth: Seq<nat>,
    position: Seq<int>,
    cursor: int,
)
    requires
        search_state(cells, width, start, queue, origin, depth, position, cursor),
        cursor < queue.len(),
    ensures
        is_least_moves(
            width,
            cells.len() as int,
            region_step(cells),
            start,
            queue[cursor] as int,
            depth[cursor] as int,
        ),
{
    let end = queue[cursor] as int;
    assert forall|other: Seq<int>| #[trigger]
        is_walk(other, width, cells.len() as int, region_step(cells)) && other[0] == start
            && other.last() == end implies other.len() - 1 >= depth[cursor] by {
        let moves = other.len() - 1;
        if moves < depth[cursor] {
            lemma_walk_found(cells, width, start, queue, origin, depth, position, cursor, other, moves);
            assert(position[queue[cursor] as int] == cursor);
        }
    }
}

/// When every entry has been worked off, the queue holds every cell that
/// the start reaches.
pub proof fn lemma_search_complete(
    cells: Seq<bool>,
    width: int,
    start: int,
    queue: Seq<usize>,
    origin: Seq<Option<usize>>,
    depth: Seq<nat>,
    position: Seq<int>,
    target: int,
)
    requires
        search_state(cells, width, start, queue, origin, depth, position, queue.len() as int),
        reaches(width, cells.len() as int, region_step(cells), start, target),
    ensures
        position[target] >= 0,
{
    let found = Seq::new(cells.len(), |i: int| position[i] >= 0);
    assert(position[queue[0] as int] == 0);
    assert forall|a: int, b: int|
        0 <= a < found.len() && found[a] && #[trigger] is_neighbor(width, found.len() as int, a, b)
            && region_step(cells)(a, b) implies found[b] by {
        let j = position[a];
        assert(queue[j] == a);
        assert(is_neighbor(width, cells.len() as int, queue[j] as int, b));
    }
    lemma_closed_holds_reached(found, width, region_step(cells), start);
}

/// The search still knows what it knew when a cell of the region that has
/// not been found before is added to the queue as found from the cell at
/// the cursor.
pub proof fn lemma_search_push(
    cells: Seq<bool>,
    width: int,
    start: int,
    queue: Seq<usize>,
    origin: Seq<Option<usize>>,
    depth: Seq<nat>,
    position: Seq<int>,
    cursor: int,
    neighbor: usize,
)
    requires
        search_state(cells, width, start, queue, origin, depth, position, cursor),
        cursor < queue.len(),
        neighbor < cells.len(),
        cells[neighbor as int],
        origin[neighbor as int] is None,
        is_neighbor(width, cells.len() as int, queue[cursor] as int, neighbor as int),
    ensures
        search_state(
            cells,
            width,
            start,
            queue.push(neighbor),
            origin.update(neighbor as int, Some(queue[cursor])),
            depth.push(depth[cursor] + 1),
            position.update(neighbor as int, queue.len() as int),
            cursor,
        ),
{
    let len = cells.len() as int;
    let queue2 = queue.push(neighbor);
    let origin2 = origin.update(neighbor as int, Some(queue[cursor]));
    let depth2 = depth.push(depth[cursor] + 1);
    let position2 = position.update(neighbor as int, queue.len() as int);
    let last = queue.len() as int;
    assert(position[neighbor as int] < 0);
    assert(position[queue[0] as int] == 0);
    assert(neighbor != start);
    assert forall|k: int| 0 <= k < queue2.len() implies (#[trigger] queue2[k]) < len && cells[queue2[k] as int]
        && position2[queue2[k] as int] == k by {
        if k < last {
            assert(queue2[k] == queue[k]);
            assert(position[queue[k] as int] == k);
        }
    }
    assert forall|i: int| 0 <= i < len implies (origin2[i] is Some <==> #[trigger] position2[i] >= 0)
        && position2[i] < queue2.len() && (position2[i] >= 0 ==> queue2[position2[i]] == i) by {
        if i != neighbor {
            assert(origin2[i] == origin[i]);
            assert(position2[i] == position[i]);
            if position[i] >= 0 {
                assert(queue2[position[i]] == queue[position[i]]);
            }
        }
    }
    assert forall|k: int| 1 <= k < queue2.len() implies #[trigger] has_parent(
        len,
        width,
        queue2,
        origin2,
        depth2,
        position2,
        k,
    ) by {
        if k < last {
            assert(has_parent(len, width, queue, origin, depth, position, k));
            assert(queue2[k] == queue[k]);
            assert(position[queue[k] as int] == k);
            assert(queue[k] != neighbor);
            assert(origin2[queue[k] as int] == origin[queue[k] as int]);
            let parent = origin[queue[k] as int]->Some_0;
            assert(position[parent as int] >= 0);
            assert(parent != neighbor);
        } else {
            let parent = queue[cursor];
            assert(position[parent as int] == cursor);
            assert(parent != neighbor);
        }
    }
    assert forall|j: int, k: int| 0 <= j <= k < queue2.len() implies #[trigger] depth2[j]
        <= #[trigger] depth2[k] by {
        if k == last && j < last {
            assert(depth[j] <= depth[cursor] + 1);
        }
    }
    assert forall|k: int| 0 <= k < queue2.len() && cursor < queue2.len() implies #[trigger] depth2[k]
        <= depth2[cursor] + 1 by {
        if k < last {
            assert(depth[k] <= depth[cursor] + 1);
        }
    }
    assert forall|j: int, b: int|
        0 <= j < cursor && #[trigger] is_neighbor(width, len, queue2[j] as int, b)
            && cells[b] implies position2[b] >= 0 && depth2[position2[b]] <= depth2[j] + 1 by {
        assert(queue2[j] == queue[j]);
        assert(is_neighbor(width, len, queue[j] as int, b));
        assert(position[b] >= 0);
        assert(b != neighbor);
    }
}

/// The search still knows what it knew when it goes on to the next entry
/// after every neighbour of the cell at the cursor that belongs to the
/// region has been found.
pub proof fn lemma_search_advance(
    cells: Seq<bool>,
    width: int,
    start: int,
    queue: Seq<usize>,
    origin: Seq<Option<usize>>,
    depth: Seq<nat>,
    position: Seq<int>,
    cursor: int,
)
    requires
        search_state(cells, width, start, queue, origin, depth, position, cursor),
        cursor < queue.len(),
        forall|b: int| #[trigger]
            is_neighbor(width, cells.len() as int, queue[cursor] as int, b) && cells[b]
                ==> position[b] >= 0 && depth[position[b]] <= depth[cursor] + 1,
    ensures
        search_state(cells, width, start, queue, origin, depth, position, cursor + 1),
{
    let len = cells.len() as int;
    assert forall|k: int| 0 <= k < queue.len() && cursor + 1 < queue.len() implies #[trigger] depth[k]
        <= depth[cursor + 1] + 1 by {
        assert(depth[k] <= depth[cursor] + 1);
        assert(depth[cursor] <= depth[cursor + 1]);
    }
    assert forall|j: int, b: int|
        0 <= j < cursor + 1 && #[trigger] is_neighbor(width, len, queue[j] as int, b)
            && cells[b] implies position[b] >= 0 && depth[position[b]] <= depth[j] + 1 by {
        if j == cursor {
            assert(is_neighbor(width, len, queue[cursor] as int, b));
        }
    }
}

impl GridRegion {
    /// Walk back from the end to the start along the cells that each cell
    /// was found from, and give the way from the start to the end as
    /// coordinates.
    fn backtrack(
        &self,
        origin: &Vec<Option<usize>>,
        start_index: usize,
        end_index: usize,
        Ghost(queue): Ghost<Seq<usize>>,
        Ghost(depth): Ghost<Seq<nat>>,
        Ghost(position): Ghost<Seq<int>>,
        Ghost(cursor): Ghost<int>,
    ) -> (path: Vec<[usize; 2]>)
        requires
            self.grid.wf(),
            self.grid.width > 0,
            search_state(
                self.grid@,
                self.grid.width as int,
                start_index as int,
                queue,
                origin@,
                depth,
                position,
                cursor,
            ),
            cursor < queue.len(),
            queue[cursor] == end_index,
        ensures
            path@.len() == depth[cursor] + 1,
            is_path_between(
                self.grid.width as int,
                self.grid@.len() as int,
                region_step(self.grid@),
                start_index as int,
                end_index as int,
                path@,
            ),
    {
        let ghost cells = self.grid@;
        let ghost width = self.grid.width as int;
        let ghost len = cells.len() as int;
        let mut path_indexes: Vec<usize> = Vec::new();
        path_indexes.push(end_index);
        let mut backtrack_cursor: usize = end_index;
        assert(position[queue[cursor] as int] == cursor);
        assert(position[queue[0] as int] == 0);
        while backtrack_cursor != start_index
            invariant
                cells == self.grid@,
                width == self.grid.width,
                len == cells.len(),
                search_state(cells, width, start_index as int, queue, origin@, depth, position, cursor),
                cursor < queue.len(),
                backtrack_cursor < len,
                position[backtrack_cursor as int] >= 0,
                path_indexes@.len() >= 1,
                path_indexes@[0] == end_index,
                path_indexes@[path_indexes@.len() - 1] == backtrack_cursor,
                path_indexes@.len() == depth[cursor] - depth[position[backtrack_cursor as int]] + 1,
                forall|k: int|
                    0 <= k < path_indexes@.len() ==> (#[trigger] path_indexes@[k]) < len
                        && cells[path_indexes@[k] as int],
                forall|k: int|
                    0 <= k < path_indexes@.len() - 1 ==> is_neighbor(
                        width,
                        len,
                        path_indexes@[k + 1] as int,
                        #[trigger] path_indexes@[k] as int,
                    ),
            decreases position[backtrack_cursor as int],
        {
            let ghost k = position[backtrack_cursor as int];
            assert(queue[k] == backtrack_cursor);
            assert(k >= 1);
            assert(has_parent(len, width, queue, origin@, depth, position, k));
            let previous_index: usize = origin[backtrack_cursor].unwrap();
            proof {
                assert(queue[position[previous_index as int]] == previous_index);
                assert(cells[queue[position[previous_index as int]] as int]);
            }
            path_indexes.push(previous_index);
            backtrack_cursor = previous_index;
        }
        assert(position[start_index as int] == 0);
        let count: usize = path_indexes.len();
        let mut path: Vec<[usize; 2]> = Vec::with_capacity(count);
        let mut remaining: usize = count;
        while remaining > 0
            invariant
                cells == self.grid@,
                width == self.grid.width,
                width > 0,
                len == cells.len(),
                self.grid.wf(),
                count == path_indexes@.len(),
                remaining <= count,
                path@.len() == count - remaining,
                forall|k: int| 0 <= k < count ==> (#[trigger] path_indexes@[k]) < len,
                forall|j: int|
                    0 <= j < path@.len() ==> (#[trigger] path@[j])[0] < width && linear_index(
                        width,
                        path@[j][0] as int,
                        path@[j][1] as int,
                    ) == path_indexes@[count - 1 - j],
            decreases remaining,
        {
            remaining -= 1;
            let index: usize = path_indexes[remaining];
            proof {
                lemma_coordinate_round_trip(width, self.grid.height as int, index as int);
            }
            path.push(self.grid.index_to_xy(index));
        }
        proof {
            let walk = path_indices(path@, width);
            assert forall|k: int| 0 <= k < walk.len() implies 0 <= #[trigger] walk[k] < len by {
                assert(walk[k] == path_indexes@[count - 1 - k]);
            }
            assert forall|k: int| 0 <= k < walk.len() - 1 implies is_neighbor(
                width,
                len,
                #[trigger] walk[k],
                walk[k + 1],
            ) && region_step(cells)(walk[k], walk[k + 1]) by {
                assert(walk[k] == path_indexes@[count - 1 - k]);
                assert(walk[k + 1] == path_indexes@[count - 2 - k]);
                assert(is_neighbor(
                    width,
                    len,
                    path_indexes@[(count - 2 - k) + 1] as int,
                    path_indexes@[count - 2 - k] as int,
                ));
            }
            assert(walk[0] == path_indexes@[count - 1]);
            assert(walk.last() == path_indexes@[0]);
        }
        path
    }

    /// Find a path from one index to another. Will only move over positive pixels in the region.
    pub fn find_path<U: GridIndexer, V: GridIndexer>(&self, start: U, end: V) -> (result: Result<
        Vec<[usize; 2]>,
        GridError,
    >)
        requires
            self.grid.wf(),
            0 <= start.grid_index(self.grid.width as int) < self.grid@.len(),
            0 <= end.grid_index(self.grid.width as int) < self.grid@.len(),
        ensures
            match result {
                Ok(path) => {
                    &&& self.grid@[start.grid_index(self.grid.width as int)]
                    &&& self.grid@[end.grid_index(self.grid.width as int)]
                    &&& is_path_between(
                        self.grid.width as int,
                        self.grid@.len() as int,
                        region_step(self.grid@),
                        start.grid_index(self.grid.width as int),
                        end.grid_index(self.grid.width as int),
                        path@,
                    )
                    &&& is_least_moves(
                        self.grid.width as int,
                        self.grid@.len() as int,
                        region_step(self.grid@),
                        start.grid_index(self.grid.width as int),
                        end.grid_index(self.grid.width as int),
                        path@.len() - 1,
                    )
                },
                Err(error) => if !self.grid@[start.grid_index(self.grid.width as int)]
                    || !self.grid@[end.grid_index(self.grid.width as int)] {
                    error == GridError::OutOfRegion
                } else {
                    &&& error == GridError::PathNotFound
                    &&& !reaches(
                        self.grid.width as int,
                        self.grid@.len() as int,
                        region_step(self.grid@),
                        start.grid_index(self.grid.width as int),
                        end.grid_index(self.grid.width as int),
                    )
                },
            },
    {
        let ghost cells = self.grid@;
        let ghost width = self.grid.width as int;
        assert(self.grid.data.len() == cells.len());
        let len: usize = self.grid.data.len();
        let start_index: usize = start.to_grid_index(&self.grid);
        let end_index: usize = end.to_grid_index(&self.grid);
        if !self.grid.data[start_index] {
            return Err(GridError::OutOfRegion);
        }
        if !self.grid.data[end_index] {
            return Err(GridError::OutOfRegion);
        }
        assert(self.grid.width > 0) by (nonlinear_arith)
            requires
                self.grid.width * self.grid.height > 0,
        ;
        proof {
            assert(len - self.grid.width >= 0) by (nonlinear_arith)
                requires
                    len == self.grid.width * self.grid.height,
                    self.grid.height > 0,
            ;
        }
        let max_x: usize = self.grid.width - 1;
        let max_y: usize = len - self.grid.width;

        let mut origin: Vec<Option<usize>> = Vec::with_capacity(len);
        let mut filled: usize = 0;
        while filled < len
            invariant
                filled <= len,
                origin@.len() == filled,
                forall|i: int| 0 <= i < filled ==> origin@[i] is None,
            decreases len - filled,
        {
            origin.push(None);
            filled += 1;
        }
        let mut queue: Vec<usize> = Vec::new();
        queue.push(start_index);
        origin[start_index] = Some(start_index);
        let ghost mut depth: Seq<nat> = seq![0nat];
        let ghost mut position: Seq<int> = Seq::new(
            len as nat,
            |i: int|
                if i == start_index {
                    0int
                } else {
                    -1int
                },
        );
        let ghost mut found: Seq<bool> = Seq::new(len as nat, |i: int| i == start_index);
        proof {
            let none = Seq::new(len as nat, |i: int| false);
            assert(count_true(none) == 0) by {
                lemma_count_all_clear(none);
            }
            assert(found == none.update(start_index as int, true));
            lemma_count_raise(none, start_index as int);
        }
        let mut queue_cursor: usize = 0;
        while queue_cursor < queue.len()
            invariant
                self.grid.wf(),
                cells == self.grid@,
                width == self.grid.width,
                len == cells.len(),
                max_x == self.grid.width - 1,
                max_y == len - self.grid.width,
                start_index < len,
                end_index < len,
                start_index == start.grid_index(width),
                end_index == end.grid_index(width),
                cells[start_index as int],
                cells[end_index as int],
                found.len() == len,
                forall|i: int| 0 <= i < len ==> (#[trigger] found[i] <==> position[i] >= 0),
                count_true(found) == queue@.len(),
                queue@.len() <= len,
                search_state(
                    cells,
                    width,
                    start_index as int,
                    queue@,
                    origin@,
                    depth,
                    position,
                    queue_cursor as int,
                ),
                forall|j: int| 0 <= j < queue_cursor ==> #[trigger] queue@[j] != end_index,
            decreases len - queue_cursor,
        {
            let current_index: usize = queue[queue_cursor];
            if current_index == end_index {
                proof {
                    lemma_search_shortest(
                        cells,
                        width,
                        start_index as int,
                        queue@,
                        origin@,
                        depth,
                        position,
                        queue_cursor as int,
                    );
                }
                let path: Vec<[usize; 2]> = self.backtrack(
                    &origin,
                    start_index,
                    end_index,
                    Ghost(queue@),
                    Ghost(depth),
                    Ghost(position),
                    Ghost(queue_cursor as int),
                );
                return Ok(path);
            }
            let neighbors: Vec<usize> = self.grid._index_neighbors(current_index, max_x, max_y);
            let ghost queue_before = queue@;
            let mut neighbor_cursor: usize = 0;
            while neighbor_cursor < neighbors.len()
                invariant
                    cells == self.grid@,
                    len == cells.len(),
                    width == self.grid.width,
                    start_index < len,
                    current_index < len,
                    queue_cursor < queue@.len(),
                    queue@[queue_cursor as int] == current_index,
                    neighbor_cursor <= neighbors@.len(),
                    found.len() == len,
                    forall|i: int| 0 <= i < len ==> (#[trigger] found[i] <==> position[i] >= 0),
                    count_true(found) == queue@.len(),
                    queue@.len() <= len,
                    forall|k: int|
                        0 <= k < neighbors@.len() ==> is_neighbor(
                            width,
                            len as int,
                            current_index as int,
                            #[trigger] neighbors@[k] as int,
                        ),
                    search_state(
                        cells,
                        width,
                        start_index as int,
                        queue@,
                        origin@,
                        depth,
                        position,
                        queue_cursor as int,
                    ),
                    forall|j: int| 0 <= j <= queue_cursor ==> #[trigger] queue@[j] != end_index,
                    forall|k: int|
                        0 <= k < neighbor_cursor && cells[#[trigger] neighbors@[k] as int]
                            ==> position[neighbors@[k] as int] >= 0 && depth[position[neighbors@[k] as int]]
                            <= depth[queue_cursor as int] + 1,
                decreases neighbors@.len() - neighbor_cursor,
            {
                let neighbor_index: usize = neighbors[neighbor_cursor];
                if self.grid.data[neighbor_index] && origin[neighbor_index].is_none() {
                    proof {
                        lemma_count_raise(found, neighbor_index as int);
                        lemma_search_push(
                            cells,
                            width,
                            start_index as int,
                            queue@,
                            origin@,
                            depth,
                            position,
                            queue_cursor as int,
                            neighbor_index,
                        );
                        found = found.update(neighbor_index as int, true);
                        depth = depth.push(depth[queue_cursor as int] + 1);
                        position = position.update(neighbor_index as int, queue@.len() as int);
                    }
                    queue.push(neighbor_index);
                    origin[neighbor_index] = Some(current_index);
                }
                neighbor_cursor += 1;
            }
            proof {
                lemma_neighbors_of(width, self.grid.height as int, len as int, current_index as int);
                assert forall|b: int| #[trigger]
                    is_neighbor(width, len as int, current_index as int, b) && cells[b] implies position[b]
                    >= 0 && depth[position[b]] <= depth[queue_cursor as int] + 1 by {
                    let list = neighbors_of(width, len as int, current_index as int);
                    assert(list.contains(b));
                    let k = choose|k: int| 0 <= k < list.len() && list[k] == b;
                    assert(neighbors@.map_values(|n: usize| n as int)[k] == neighbors@[k] as int);
                }
                lemma_search_advance(
                    cells,
                    width,
                    start_index as int,
                    queue@,
                    origin@,
                    depth,
                    position,
                    queue_cursor as int,
                );
            }
            queue_cursor += 1;
        }
        proof {
            if reaches(width, len as int, region_step(cells), start_index as int, end_index as int) {
                lemma_search_complete(
                    cells,
                    width,
                    start_index as int,
                    queue@,
                    origin@,
                    depth,
                    position,
                    end_index as int,
                );
                assert(queue@[position[end_index as int]] == end_index);
            }
        }
        Err(GridError::PathNotFound)
    }
}


/// For each cell whether it belongs to the region of cells equal to the
/// start cell that hang together with the start cell.
pub open spec fn eq_region<T: PartialEq>(cells: Seq<T>, width: int, start: int) -> Seq<bool> {
    Seq::new(cells.len(), |i: int| in_eq_region(cells, width, start, i))
}

/// A walk over cells equal to the start cell stays inside the region of
/// the start cell.
pub proof fn lemma_eq_walk_in_region<T: PartialEq>(cells: Seq<T>, width: int, start: int, walk: Seq<int>)
    requires
        cells[start].eq_spec(&cells[start]),
        is_walk(walk, width, cells.len() as int, eq_step(cells, cells[start])),
        walk[0] == start,
    ensures
        is_walk(walk, width, cells.len() as int, region_step(eq_region(cells, width, start))),
{
    let len = cells.len() as int;
    let step = eq_step(cells, cells[start]);
    let region = eq_region(cells, width, start);
    assert forall|k: int| 0 <= k < walk.len() - 1 implies is_neighbor(
        width,
        len,
        #[trigger] walk[k],
        walk[k + 1],
    ) && region_step(region)(walk[k], walk[k + 1]) by {
        let prefix = walk.take(k + 2);
        assert forall|j: int| 0 <= j < prefix.len() - 1 implies is_neighbor(
            width,
            len,
            #[trigger] prefix[j],
            prefix[j + 1],
        ) && step(prefix[j], prefix[j + 1]) by {
            assert(prefix[j] == walk[j] && prefix[j + 1] == walk[j + 1]);
        }
        assert(is_walk(prefix, width, len, step));
        assert(prefix[0] == start && prefix.last() == walk[k + 1]);
        assert(reaches(width, len, step, start, walk[k + 1]));
    }
}

impl<T: PartialEq> Grid<T> {
    /// Find a path from one index to another. Will only move over pixels that are equal to the starting pixel.
    pub fn find_path<U: GridIndexer, V: GridIndexer>(&self, start: U, end: V) -> (result: Result<
        Vec<[usize; 2]>,
        GridError,
    >)
        requires
            self.wf(),
            0 <= start.grid_index(self.width as int) < self@.len(),
            0 <= end.grid_index(self.width as int) < self@.len(),
        ensures
            T::obeys_eq_spec() ==> match result {
                Ok(path) => {
                    &&& in_eq_region(
                        self@,
                        self.width as int,
                        start.grid_index(self.width as int),
                        end.grid_index(self.width as int),
                    )
                    &&& is_path_between(
                        self.width as int,
                        self@.len() as int,
                        region_step(
                            eq_region(self@, self.width as int, start.grid_index(self.width as int)),
                        ),
                        start.grid_index(self.width as int),
                        end.grid_index(self.width as int),
                        path@,
                    )
                    &&& is_least_moves(
                        self.width as int,
                        self@.len() as int,
                        region_step(
                            eq_region(self@, self.width as int, start.grid_index(self.width as int)),
                        ),
                        start.grid_index(self.width as int),
                        end.grid_index(self.width as int),
                        path@.len() - 1,
                    )
                },
                Err(error) => {
                    &&& error == GridError::OutOfRegion
                    &&& !in_eq_region(
                        self@,
                        self.width as int,
                        start.grid_index(self.width as int),
                        end.grid_index(self.width as int),
                    )
                },
            },
    {
        assert(self.data.len() == self@.len());
        let start_index: usize = start.to_grid_index(self);
        let region: GridRegion = self.region_at_eq(start_index);
        let ghost cells = self@;
        let ghost width = self.width as int;
        proof {
            if T::obeys_eq_spec() {
                assert(region.grid@ =~= eq_region(cells, width, start_index as int));
            }
        }
        let result = region.find_path(start_index, end);
        proof {
            if T::obeys_eq_spec() {
                let end_index = end.grid_index(width);
                let marks = eq_region(cells, width, start_index as int);
                if result is Err && marks[start_index as int] && marks[end_index] {
                    let step = eq_step(cells, cells[start_index as int]);
                    let walk = choose|walk: Seq<int>| #[trigger]
                        is_walk(walk, width, cells.len() as int, step) && walk[0] == start_index
                            && walk.last() == end_index;
                    lemma_eq_walk_in_region(cells, width, start_index as int, walk);
                    assert(reaches(
                        width,
                        cells.len() as int,
                        region_step(marks),
                        start_index as int,
                        end_index,
                    ));
                }
                if !marks[start_index as int] && marks[end_index] {
                    let step = eq_step(cells, cells[start_index as int]);
                    crate::reach::lemma_reaches_self(width, cells.len() as int, step, start_index as int);
                }
            }
        }
        result
    }
}

} // verus!
