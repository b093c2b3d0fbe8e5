use vstd::prelude::*;

use crate::board::Board;
use crate::coordinates::Coordinates;
use crate::matcher::Tiles;

verus! {

/// A way for a ball from `from` to `to`: it begins at `from`, ends at `to`,
/// stays on the board, and each step goes to a free cell next to the one
/// before.
pub open spec fn is_path(
    board: &Board,
    path: Seq<Coordinates>,
    from: Coordinates,
    to: Coordinates,
) -> bool {
    &&& path.len() >= 1
    &&& path[0] == from
    &&& path[path.len() - 1] == to
    &&& forall|i: int|
        0 <= i < path.len() ==> (#[trigger] path[i]).in_bounds(board.tile_count as int)
    &&& forall|i: int|
        1 <= i < path.len() ==> board.is_free(#[trigger] path[i]) && path[i - 1].adjacent(path[i])
}

/// Some way leads from `from` to `to`.
pub open spec fn reachable(board: &Board, from: Coordinates, to: Coordinates) -> bool {
    exists|path: Seq<Coordinates>| is_path(board, path, from, to)
}

/// Whatever free cell lies next to a cell of `seen` is in `seen` too.
pub open spec fn closed_under_steps(board: &Board, seen: Seq<Coordinates>) -> bool {
    forall|c: Coordinates, d: Coordinates|
        #![trigger seen.contains(c), c.adjacent(d)]
        seen.contains(c) && c.adjacent(d) && board.is_free(d) ==> seen.contains(d)
}

/// A way that begins inside a closed set of cells never leaves it.
pub proof fn lemma_path_stays_inside(
    board: &Board,
    seen: Seq<Coordinates>,
    path: Seq<Coordinates>,
    from: Coordinates,
    to: Coordinates,
    i: int,
)
    requires
        closed_under_steps(board, seen),
        is_path(board, path, from, to),
        seen.contains(from),
        0 <= i < path.len(),
    ensures
        seen.contains(path[i]),
    decreases i,
{
    if i > 0 {
        lemma_path_stays_inside(board, seen, path, from, to, i - 1);
        assert(board.is_free(path[i]) && path[i - 1].adjacent(path[i]));
    }
}

/// The cells among the first `k` of a row that the search has not reached.
pub open spec fn row_unvisited(row: Seq<bool>, k: int) -> nat
    decreases k,
{
    if k <= 0 {
        0
    } else {
        row_unvisited(row, k - 1) + if row[k - 1] { 0nat } else { 1nat }
    }
}

/// The cells in the first `k` rows that the search has not reached.
pub open spec fn grid_unvisited(grid: Seq<Vec<bool>>, k: int) -> nat
    decreases k,
{
    if k <= 0 {
        0
    } else {
        grid_unvisited(grid, k - 1) + row_unvisited(grid[k - 1]@, grid[k - 1]@.len() as int)
    }
}

proof fn lemma_row_mark(row: Seq<bool>, j: int, k: int)
    requires
        0 <= j < row.len(),
        0 <= k <= row.len(),
        !row[j],
    ensures
        row_unvisited(row.update(j, true), k) + (if j < k { 1int } else { 0int }) == row_unvisited(row, k),
    decreases k,
{
    if k > 0 {
        lemma_row_mark(row, j, k - 1);
    }
}

proof fn lemma_grid_mark(before: Seq<Vec<bool>>, after: Seq<Vec<bool>>, i: int, j: int, k: int)
    requires
        after.len() == before.len(),
        0 <= i < before.len(),
        0 <= k <= before.len(),
        0 <= j < before[i]@.len(),
        !before[i]@[j],
        after[i]@ == before[i]@.update(j, true),
        forall|r: int| 0 <= r < before.len() && r != i ==> (#[trigger] after[r])@ == before[r]@,
    ensures
        grid_unvisited(after, k) + (if i < k { 1int } else { 0int }) == grid_unvisited(before, k),
    decreases k,
{
    if k > 0 {
        lemma_grid_mark(before, after, i, j, k - 1);
        if k - 1 == i {
            lemma_row_mark(before[i]@, j, before[i]@.len() as int);
        } else {
            assert(after[k - 1]@ == before[k - 1]@);
        }
    }
}

fn new_grid<T: Copy>(count: u8, value: T) -> (grid: Vec<Vec<T>>)
    ensures
        grid@.len() == count,
        forall|i: int| 0 <= i < count ==> (#[trigger] grid@[i])@.len() == count,
        forall|i: int, j: int| 0 <= i < count && 0 <= j < count ==> grid@[i]@[j] == value,
{
    let mut grid: Vec<Vec<T>> = Vec::new();
    let mut x: u8 = 0;
    while x < count
        invariant
            x <= count,
            grid@.len() == x,
            forall|i: int| 0 <= i < x ==> (#[trigger] grid@[i])@.len() == count,
            forall|i: int, j: int| 0 <= i < x && 0 <= j < count ==> grid@[i]@[j] == value,
        decreases count - x,
    {
        let mut row: Vec<T> = Vec::new();
        let mut y: u8 = 0;
        while y < count
            invariant
                y <= count,
                row@.len() == y,
                forall|j: int| 0 <= j < y ==> row@[j] == value,
            decreases count - y,
        {
            row.push(value);
            y += 1;
        }
        grid.push(row);
        x += 1;
    }
    grid
}

fn reversed(cells: &Vec<Coordinates>) -> (result: Vec<Coordinates>)
    ensures
        result@.len() == cells@.len(),
        forall|i: int| 0 <= i < cells@.len() ==> result@[i] == cells@[cells@.len() - 1 - i],
{
    let mut result: Vec<Coordinates> = Vec::new();
    let mut i: usize = cells.len();
    while i > 0
        invariant
            i <= cells@.len(),
            result@.len() == cells@.len() - i,
            forall|k: int| 0 <= k < result@.len() ==> result@[k] == cells@[cells@.len() - 1 - k],
        decreases i,
    {
        i -= 1;
        result.push(cells[i]);
    }
    result
}

/// What the search has noted for a cell of its grid.
pub open spec fn marked(grid: Seq<Vec<bool>>, c: Coordinates) -> bool {
    grid[c.0 as int]@[c.1 as int]
}

/// The cell from which the search came to `c`.
pub open spec fn came_from(prev: Seq<Vec<Coordinates>>, c: Coordinates) -> Coordinates {
    prev[c.0 as int]@[c.1 as int]
}

/// What the search knows of a cell that it has reached: a way to it, which
/// is the way to the cell it came from and one step more.
pub open spec fn reached(
    board: &Board,
    from: Coordinates,
    visited: Seq<Vec<bool>>,
    prev: Seq<Vec<Coordinates>>,
    ways: Map<Coordinates, Seq<Coordinates>>,
    c: Coordinates,
) -> bool {
    &&& ways.dom().contains(c)
    &&& is_path(board, ways[c], from, c)
    &&& c == from ==> ways[c] == seq![from]
    &&& c != from ==> {
        let p = came_from(prev, c);
        &&& p.in_bounds(board.tile_count as int)
        &&& marked(visited, p)
        &&& ways.dom().contains(p)
        &&& ways[c] == ways[p].push(c)
    }
}

/// One more step at the end of a way.
pub proof fn lemma_extend_path(
    board: &Board,
    path: Seq<Coordinates>,
    from: Coordinates,
    c: Coordinates,
    next: Coordinates,
)
    requires
        is_path(board, path, from, c),
        c.adjacent(next),
        board.is_free(next),
    ensures
        is_path(board, path.push(next), from, next),
{
    let longer = path.push(next);
    assert forall|i: int| 1 <= i < longer.len() implies board.is_free(#[trigger] longer[i])
        && longer[i - 1].adjacent(longer[i]) by {
        if i < path.len() {
            assert(board.is_free(path[i]) && path[i - 1].adjacent(path[i]));
        }
    }
    assert forall|i: int| 0 <= i < longer.len() implies (#[trigger] longer[i]).in_bounds(
        board.tile_count as int,
    ) by {
        if i < path.len() {
            assert(path[i].in_bounds(board.tile_count as int));
        }
    }
}

pub open spec fn grid_shape<T>(grid: Seq<Vec<T>>, count: int) -> bool {
    &&& grid.len() == count
    &&& forall|i: int| 0 <= i < count ==> (#[trigger] grid[i])@.len() == count
}

/// What holds of the search at every moment: each cell it has noted is in
/// its queue and has a way from `from`, and each cell of the queue is noted.
#[verifier::opaque]
pub open spec fn search_state(
    board: &Board,
    from: Coordinates,
    visited: Seq<Vec<bool>>,
    prev: Seq<Vec<Coordinates>>,
    ways: Map<Coordinates, Seq<Coordinates>>,
    queue: Seq<Coordinates>,
) -> bool {
    &&& forall|c: Coordinates|
        c.in_bounds(board.tile_count as int) && #[trigger] marked(visited, c) ==> reached(
            board,
            from,
            visited,
            prev,
            ways,
            c,
        ) && queue.contains(c)
    &&& forall|k: int|
        0 <= k < queue.len() ==> (#[trigger] queue[k]).in_bounds(board.tile_count as int)
            && marked(visited, queue[k])
    &&& from.in_bounds(board.tile_count as int)
    &&& marked(visited, from)
}

proof fn lemma_search_begins(
    board: &Board,
    from: Coordinates,
    visited: Seq<Vec<bool>>,
    prev: Seq<Vec<Coordinates>>,
)
    requires
        from.in_bounds(board.tile_count as int),
        forall|c: Coordinates|
            c.in_bounds(board.tile_count as int) ==> (#[trigger] marked(visited, c) <==> c == from),
    ensures
        search_state(board, from, visited, prev, Map::empty().insert(from, seq![from]), seq![from]),
{
    reveal(search_state);
    let ways = Map::<Coordinates, Seq<Coordinates>>::empty().insert(from, seq![from]);
    let queue = seq![from];
    assert(queue[0] == from);
    assert(is_path(board, ways[from], from, from));
}

proof fn lemma_queued(
    board: &Board,
    from: Coordinates,
    visited: Seq<Vec<bool>>,
    prev: Seq<Vec<Coordinates>>,
    ways: Map<Coordinates, Seq<Coordinates>>,
    queue: Seq<Coordinates>,
    k: int,
)
    requires
        search_state(board, from, visited, prev, ways, queue),
        0 <= k < queue.len(),
    ensures
        queue[k].in_bounds(board.tile_count as int),
        marked(visited, queue[k]),
{
    reveal(search_state);
}

proof fn lemma_start_noted(
    board: &Board,
    from: Coordinates,
    visited: Seq<Vec<bool>>,
    prev: Seq<Vec<Coordinates>>,
    ways: Map<Coordinates, Seq<Coordinates>>,
    queue: Seq<Coordinates>,
)
    requires
        search_state(board, from, visited, prev, ways, queue),
    ensures
        from.in_bounds(board.tile_count as int),
        marked(visited, from),
        queue.contains(from),
{
    reveal(search_state);
}

proof fn lemma_noted(
    board: &Board,
    from: Coordinates,
    visited: Seq<Vec<bool>>,
    prev: Seq<Vec<Coordinates>>,
    ways: Map<Coordinates, Seq<Coordinates>>,
    queue: Seq<Coordinates>,
    c: Coordinates,
)
    requires
        search_state(board, from, visited, prev, ways, queue),
        c.in_bounds(board.tile_count as int),
        marked(visited, c),
    ensures
        reached(board, from, visited, prev, ways, c),
        queue.contains(c),
        marked(visited, from),
        from.in_bounds(board.tile_count as int),
{
    reveal(search_state);
}

proof fn lemma_mark_cell(
    board: &Board,
    from: Coordinates,
    visited: Seq<Vec<bool>>,
    visited_after: Seq<Vec<bool>>,
    prev: Seq<Vec<Coordinates>>,
    prev_after: Seq<Vec<Coordinates>>,
    ways: Map<Coordinates, Seq<Coordinates>>,
    queue: Seq<Coordinates>,
    coord: Coordinates,
    next: Coordinates,
)
    requires
        search_state(board, from, visited, prev, ways, queue),
        coord.in_bounds(board.tile_count as int),
        marked(visited, coord),
        coord.adjacent(next),
        board.is_free(next),
        !marked(visited, next),
        forall|c: Coordinates|
            c.in_bounds(board.tile_count as int) ==> (#[trigger] marked(visited_after, c) <==> c
                == next || marked(visited, c)),
        forall|c: Coordinates|
            c.in_bounds(board.tile_count as int) && c != next ==> #[trigger] came_from(
                prev_after,
                c,
            ) == came_from(prev, c),
        came_from(prev_after, next) == coord,
    ensures
        search_state(
            board,
            from,
            visited_after,
            prev_after,
            ways.insert(next, ways[coord].push(next)),
            queue.push(next),
        ),
{
    reveal(search_state);
    let n = board.tile_count as int;
    let ways_after = ways.insert(next, ways[coord].push(next));
    let queue_after = queue.push(next);
    assert(reached(board, from, visited, prev, ways, coord));
    lemma_extend_path(board, ways[coord], from, coord, next);
    assert(queue_after[queue.len() as int] == next);
    assert forall|c: Coordinates| c.in_bounds(n) && #[trigger] marked(visited_after, c) implies reached(
        board,
        from,
        visited_after,
        prev_after,
        ways_after,
        c,
    ) && queue_after.contains(c) by {
        if c == next {
            assert(queue_after.contains(c));
            assert(reached(board, from, visited_after, prev_after, ways_after, c));
        } else {
            assert(marked(visited, c));
            assert(reached(board, from, visited, prev, ways, c));
            assert(came_from(prev_after, c) == came_from(prev, c));
            assert(queue.contains(c));
            let k = choose|k: int| 0 <= k < queue.len() && queue[k] == c;
            assert(queue_after[k] == c);
            if c != from {
                let p = came_from(prev, c);
                assert(marked(visited_after, p));
                assert(p != next);
            }
            assert(reached(board, from, visited_after, prev_after, ways_after, c));
        }
    }
    assert forall|k: int| 0 <= k < queue_after.len() implies (#[trigger] queue_after[k]).in_bounds(n)
        && marked(visited_after, queue_after[k]) by {
        if k < queue.len() {
            assert(queue[k] == queue_after[k]);
            assert(marked(visited, queue[k]));
        }
    }
}

/// A way from `from` to `to` than which none is shorter.
pub open spec fn is_shortest_path(
    board: &Board,
    path: Seq<Coordinates>,
    from: Coordinates,
    to: Coordinates,
) -> bool {
    &&& is_path(board, path, from, to)
    &&& forall|other: Seq<Coordinates>|
        #[trigger] is_path(board, other, from, to) ==> path.len() <= other.len()
}

/// The length of the way noted for the `i`-th cell of the queue.
pub open spec fn way_len(
    ways: Map<Coordinates, Seq<Coordinates>>,
    queue: Seq<Coordinates>,
    i: int,
) -> int {
    ways[queue[i]].len() as int
}

/// The cells of the queue stand in the order of the lengths of their ways,
/// and none has a way longer by more than one step than the cell at
/// `head`.
#[verifier::opaque]
pub open spec fn search_order(
    ways: Map<Coordinates, Seq<Coordinates>>,
    queue: Seq<Coordinates>,
    head: int,
) -> bool {
    &&& forall|i: int, j: int|
        0 <= i <= j < queue.len() ==> #[trigger] way_len(ways, queue, i) <= #[trigger] way_len(
            ways,
            queue,
            j,
        )
    &&& 0 <= head < queue.len() ==> forall|j: int|
        0 <= j < queue.len() ==> #[trigger] way_len(ways, queue, j) <= way_len(ways, queue, head) + 1
}

/// Whatever free cell lies next to one of the first `head` cells of the
/// queue is noted, with a way longer by no more than one step.
pub open spec fn steps_noted(
    board: &Board,
    visited: Seq<Vec<bool>>,
    ways: Map<Coordinates, Seq<Coordinates>>,
    queue: Seq<Coordinates>,
    head: int,
) -> bool {
    forall|k: int, d: Coordinates|
        0 <= k < head && #[trigger] queue[k].adjacent(d) && board.is_free(d) ==> marked(visited, d)
            && ways[d].len() <= ways[queue[k]].len() + 1
}

proof fn lemma_order_begins(from: Coordinates)
    ensures
        search_order(Map::empty().insert(from, seq![from]), seq![from], 0),
{
    reveal(search_order);
}

proof fn lemma_order_push(
    ways: Map<Coordinates, Seq<Coordinates>>,
    queue: Seq<Coordinates>,
    head: int,
    next: Coordinates,
    way: Seq<Coordinates>,
)
    requires
        search_order(ways, queue, head),
        0 <= head < queue.len(),
        forall|j: int| 0 <= j < queue.len() ==> #[trigger] queue[j] != next,
        way.len() == ways[queue[head]].len() + 1,
    ensures
        search_order(ways.insert(next, way), queue.push(next), head),
{
    reveal(search_order);
    let ways_after = ways.insert(next, way);
    let queue_after = queue.push(next);
    assert forall|j: int| 0 <= j < queue_after.len() implies #[trigger] way_len(
        ways_after,
        queue_after,
        j,
    ) == (if j < queue.len() {
        way_len(ways, queue, j)
    } else {
        way_len(ways, queue, head) + 1
    }) by {
        if j < queue.len() {
            assert(queue_after[j] == queue[j]);
            assert(queue[j] != next);
        }
    }
    assert forall|i: int, j: int| 0 <= i <= j < queue_after.len() implies #[trigger] way_len(
        ways_after,
        queue_after,
        i,
    ) <= #[trigger] way_len(ways_after, queue_after, j) by {
        if j < queue.len() {
            assert(way_len(ways, queue, i) <= way_len(ways, queue, j));
        } else if i < queue.len() {
            assert(way_len(ways, queue, i) <= way_len(ways, queue, head) + 1);
        }
    }
    assert forall|j: int| 0 <= j < queue_after.len() implies #[trigger] way_len(
        ways_after,
        queue_after,
        j,
    ) <= way_len(ways_after, queue_after, head) + 1 by {
        if j < queue.len() {
            assert(way_len(ways, queue, j) <= way_len(ways, queue, head) + 1);
        }
    }
}

proof fn lemma_order_advance(
    ways: Map<Coordinates, Seq<Coordinates>>,
    queue: Seq<Coordinates>,
    head: int,
)
    requires
        search_order(ways, queue, head),
        0 <= head < queue.len(),
    ensures
        search_order(ways, queue, head + 1),
{
    reveal(search_order);
    if head + 1 < queue.len() {
        assert forall|j: int| 0 <= j < queue.len() implies #[trigger] way_len(ways, queue, j)
            <= way_len(ways, queue, head + 1) + 1 by {
            assert(way_len(ways, queue, j) <= way_len(ways, queue, head) + 1);
            assert(way_len(ways, queue, head) <= way_len(ways, queue, head + 1));
        }
    }
}

proof fn lemma_order_bound(
    ways: Map<Coordinates, Seq<Coordinates>>,
    queue: Seq<Coordinates>,
    head: int,
    j: int,
)
    requires
        search_order(ways, queue, head),
        0 <= head < queue.len(),
        0 <= j < queue.len(),
    ensures
        way_len(ways, queue, j) <= way_len(ways, queue, head) + 1,
        j >= head ==> way_len(ways, queue, head) <= way_len(ways, queue, j),
{
    reveal(search_order);
}

/// While the search stands at `head`, no way to the cell there is shorter
/// than the one noted for it: a shorter way would stay, step by step,
/// within the cells that the search has left behind.
proof fn lemma_no_shorter(
    board: &Board,
    from: Coordinates,
    visited: Seq<Vec<bool>>,
    prev: Seq<Vec<Coordinates>>,
    ways: Map<Coordinates, Seq<Coordinates>>,
    queue: Seq<Coordinates>,
    head: int,
    other: Seq<Coordinates>,
    i: int,
)
    requires
        search_state(board, from, visited, prev, ways, queue),
        search_order(ways, queue, head),
        steps_noted(board, visited, ways, queue, head),
        0 <= head < queue.len(),
        is_path(board, other, from, queue[head]),
        0 <= i < other.len(),
        i + 1 < ways[queue[head]].len(),
    ensures
        marked(visited, other[i]),
        ways[other[i]].len() <= i + 1,
    decreases i,
{
    if i == 0 {
        lemma_start_noted(board, from, visited, prev, ways, queue);
        lemma_noted(board, from, visited, prev, ways, queue, from);
    } else {
        lemma_no_shorter(board, from, visited, prev, ways, queue, head, other, i - 1);
        let c = other[i - 1];
        assert(c.in_bounds(board.tile_count as int));
        lemma_noted(board, from, visited, prev, ways, queue, c);
        let k = choose|k: int| 0 <= k < queue.len() && queue[k] == c;
        assert(way_len(ways, queue, k) < way_len(ways, queue, head));
        lemma_order_bound(ways, queue, head, k);
        assert(k < head);
        assert(board.is_free(other[i]) && other[i - 1].adjacent(other[i]));
        assert(queue[k].adjacent(other[i]));
    }
}

impl Board {
    /// A shortest way for the ball on `from` to `to` through free cells, if
    /// there is a way: the search spreads from `from` over free neighbors,
    /// and the way is read back from where each cell was reached.
    pub fn get_path_to_move(&self, from: &Coordinates, to: &Coordinates) -> (path: Option<
        Vec<Coordinates>,
    >)
        requires
            self.wf(),
            from.in_bounds(self.tile_count as int),
            to.in_bounds(self.tile_count as int),
        ensures
            path is Some <==> reachable(self, *from, *to),
            path is Some ==> is_shortest_path(self, path.unwrap()@, *from, *to),
    {
        let count = self.tile_count;
        let ghost n = count as int;
        let mut visited: Vec<Vec<bool>> = new_grid(count, false);
        let mut prev: Vec<Vec<Coordinates>> = new_grid(count, Coordinates(0, 0));
        let mut queue: Vec<Coordinates> = Vec::new();
        let mut head: usize = 0;
        let ghost mut ways: Map<Coordinates, Seq<Coordinates>> = Map::empty();

        visited[from.0 as usize][from.1 as usize] = true;
        queue.push(*from);
        proof {
            ways = ways.insert(*from, seq![*from]);
            lemma_search_begins(self, *from, visited@, prev@);
            lemma_order_begins(*from);
            assert(queue@ =~= seq![*from]);
        }

        while head < queue.len()
            invariant
                self.wf(),
                n == self.tile_count,
                count == n,
                from.in_bounds(n),
                to.in_bounds(n),
                grid_shape(visited@, n),
                grid_shape(prev@, n),
                head <= queue@.len(),
                search_state(self, *from, visited@, prev@, ways, queue@),
                search_order(ways, queue@, head as int),
                steps_noted(self, visited@, ways, queue@, head as int),
                forall|k: int| 0 <= k < head ==> #[trigger] queue@[k] != *to,
            decreases grid_unvisited(visited@, n) + queue@.len() - head,
        {
            let coord = queue[head];
            proof {
                lemma_queued(self, *from, visited@, prev@, ways, queue@, head as int);
            }
            if coord == *to {
                let way = self.read_back(from, to, &visited, &prev, Ghost(ways), Ghost(queue@));
                proof {
                    assert forall|other: Seq<Coordinates>| #[trigger]
                        is_path(self, other, *from, *to) implies way@.len() <= other.len() by {
                        if other.len() < way@.len() {
                            lemma_no_shorter(
                                self,
                                *from,
                                visited@,
                                prev@,
                                ways,
                                queue@,
                                head as int,
                                other,
                                other.len() - 1,
                            );
                        }
                    }
                }
                return Some(way);
            }
            let neighbors = self.get_neighbors(&coord);
            let ghost total = grid_unvisited(visited@, n) + queue@.len();
            let mut m: usize = 0;
            while m < neighbors.len()
                invariant
                    self.wf(),
                    n == self.tile_count,
                    count == n,
                    grid_shape(visited@, n),
                    grid_shape(prev@, n),
                    head < queue@.len(),
                    coord == queue@[head as int],
                    coord.in_bounds(n),
                    marked(visited@, coord),
                    coord != *to,
                    forall|k: int| 0 <= k < head ==> #[trigger] queue@[k] != *to,
                    search_state(self, *from, visited@, prev@, ways, queue@),
                    search_order(ways, queue@, head as int),
                    steps_noted(self, visited@, ways, queue@, head as int),
                    m <= neighbors@.len(),
                    forall|j: int|
                        0 <= j < neighbors@.len() ==> (#[trigger] neighbors@[j]).in_bounds(n)
                            && coord.adjacent(neighbors@[j]),
                    forall|j: int|
                        0 <= j < m && self.is_free(#[trigger] neighbors@[j]) ==> marked(
                            visited@,
                            neighbors@[j],
                        ) && ways[neighbors@[j]].len() <= ways[coord].len() + 1,
                    grid_unvisited(visited@, n) + queue@.len() == total,
                decreases neighbors@.len() - m,
            {
                let next = neighbors[m];
                let ghost seen_before = visited@;
                let ghost prev_before = prev@;
                let ghost queue_before = queue@;
                let ghost ways_before = ways;
                if self.tiles[next.0 as usize][next.1 as usize].is_none()
                    && !visited[next.0 as usize][next.1 as usize] {
                    visited[next.0 as usize][next.1 as usize] = true;
                    prev[next.0 as usize][next.1 as usize] = coord;
                    queue.push(next);
                    proof {
                        lemma_grid_mark(seen_before, visited@, next.0 as int, next.1 as int, n);
                        lemma_mark_cell(
                            self,
                            *from,
                            seen_before,
                            visited@,
                            prev_before,
                            prev@,
                            ways,
                            queue_before,
                            coord,
                            next,
                        );
                        assert forall|j: int| 0 <= j < queue_before.len() implies #[trigger] queue_before[j]
                            != next by {
                            lemma_queued(
                                self,
                                *from,
                                seen_before,
                                prev_before,
                                ways,
                                queue_before,
                                j,
                            );
                        }
                        lemma_order_push(
                            ways,
                            queue_before,
                            head as int,
                            next,
                            ways[coord].push(next),
                        );
                        ways = ways.insert(next, ways[coord].push(next));
                        assert forall|k: int| 0 <= k < head implies #[trigger] queue@[k]
                            != *to by {
                            assert(queue_before[k] == queue@[k]);
                        }
                        assert forall|k: int, d: Coordinates|
                            0 <= k < head && #[trigger] queue@[k].adjacent(d) && self.is_free(
                                d,
                            ) implies marked(visited@, d) && ways[d].len() <= ways[queue@[k]].len()
                            + 1 by {
                            assert(queue_before[k] == queue@[k]);
                            assert(queue_before[k].adjacent(d));
                            assert(marked(seen_before, d));
                            lemma_queued(
                                self,
                                *from,
                                seen_before,
                                prev_before,
                                ways_before,
                                queue_before,
                                k,
                            );
                        }
                        assert forall|j: int|
                            0 <= j < m + 1 && self.is_free(
                                #[trigger] neighbors@[j],
                            ) implies marked(visited@, neighbors@[j]) && ways[neighbors@[j]].len()
                            <= ways[coord].len() + 1 by {
                            if j < m {
                                assert(marked(seen_before, neighbors@[j]));
                            }
                        }
                    }
                } else {
                    proof {
                        if self.is_free(next) {
                            lemma_noted(self, *from, visited@, prev@, ways, queue@, next);
                            let j = choose|j: int| 0 <= j < queue@.len() && queue@[j] == next;
                            lemma_order_bound(ways, queue@, head as int, j);
                        }
                    }
                }
                m += 1;
            }
            proof {
                assert forall|d: Coordinates|
                    #[trigger] coord.adjacent(d) && self.is_free(d) implies marked(visited@, d)
                    && ways[d].len() <= ways[coord].len() + 1 by {
                    assert(neighbors@.contains(d));
                    let j = choose|j: int| 0 <= j < neighbors@.len() && neighbors@[j] == d;
                    assert(self.is_free(neighbors@[j]));
                }
                lemma_order_advance(ways, queue@, head as int);
            }
            head += 1;
        }
        proof {
            if reachable(self, *from, *to) {
                let way = choose|way: Seq<Coordinates>| is_path(self, way, *from, *to);
                assert forall|c: Coordinates, d: Coordinates|
                    #![trigger queue@.contains(c), c.adjacent(d)]
                    queue@.contains(c) && c.adjacent(d) && self.is_free(d) implies queue@.contains(
                    d,
                ) by {
                    let k = choose|k: int| 0 <= k < queue@.len() && queue@[k] == c;
                    assert(queue@[k].adjacent(d));
                    assert(marked(visited@, d));
                    lemma_noted(self, *from, visited@, prev@, ways, queue@, d);
                }
                lemma_start_noted(self, *from, visited@, prev@, ways, queue@);
                lemma_path_stays_inside(self, queue@, way, *from, *to, way.len() - 1);
                let k = choose|k: int| 0 <= k < queue@.len() && queue@[k] == *to;
                assert(queue@[k] != *to);
            }
        }
        None
    }

    /// Reads the way to `to` back from where each cell was reached.
    fn read_back(
        &self,
        from: &Coordinates,
        to: &Coordinates,
        visited: &Vec<Vec<bool>>,
        prev: &Vec<Vec<Coordinates>>,
        Ghost(ways): Ghost<Map<Coordinates, Seq<Coordinates>>>,
        Ghost(queue): Ghost<Seq<Coordinates>>,
    ) -> (way: Vec<Coordinates>)
        requires
            self.wf(),
            grid_shape(visited@, self.tile_count as int),
            grid_shape(prev@, self.tile_count as int),
            search_state(self, *from, visited@, prev@, ways, queue),
            to.in_bounds(self.tile_count as int),
            marked(visited@, *to),
        ensures
            is_path(self, way@, *from, *to),
            way@ == ways[*to],
    {
        let ghost n = self.tile_count as int;
        let mut path: Vec<Coordinates> = Vec::new();
        let mut current = *to;
        let ghost target = ways[*to];
        while current != *from
            invariant
                self.wf(),
                n == self.tile_count,
                grid_shape(visited@, n),
                grid_shape(prev@, n),
                search_state(self, *from, visited@, prev@, ways, queue),
                current.in_bounds(n),
                marked(visited@, current),
                ways[current].len() + path@.len() == target.len(),
                forall|j: int| 0 <= j < path@.len() ==> path@[j] == target[target.len() - 1 - j],
                forall|j: int| 0 <= j < ways[current].len() ==> ways[current][j] == target[j],
            decreases ways[current].len(),
        {
            let ghost here = current;
            proof {
                lemma_noted(self, *from, visited@, prev@, ways, queue, here);
            }
            path.push(current);
            current = prev[current.0 as usize][current.1 as usize];
            proof {
                assert(current == came_from(prev@, here));
                assert(ways[here] == ways[current].push(here));
                assert(ways[here][ways[current].len() as int] == here);
                assert forall|j: int| 0 <= j < ways[current].len() implies ways[current][j]
                    == target[j] by {
                    assert(ways[here][j] == ways[current][j]);
                }
            }
        }
        proof {
            lemma_noted(self, *from, visited@, prev@, ways, queue, current);
            lemma_noted(self, *from, visited@, prev@, ways, queue, *to);
        }
        path.push(*from);
        let way = reversed(&path);
        proof {
            assert(way@ =~= target);
        }
        way
    }
}

/// The grid after the ball on `from` has gone to `to`.
pub open spec fn spec_moved(tiles: Tiles, from: Coordinates, to: Coordinates) -> Tiles {
    tiles.insert(from, None).insert(to, tiles[from])
}

impl Board {
    /// A ball is armed, `to` is another cell, and a way leads there.
    pub open spec fn can_move(&self, to: Coordinates) -> bool {
        match self.active_ball {
            Some(from) => from != to && reachable(self, from, to),
            None => false,
        }
    }

    /// Takes the armed ball to `to` and disarms it, if a way leads there;
    /// else nothing changes. The way is returned.
    pub fn move_active_ball(&mut self, to: &Coordinates) -> (path: Option<Vec<Coordinates>>)
        requires
            old(self).wf(),
            to.in_bounds(old(self).tile_count as int),
        ensures
            final(self).wf(),
            final(self).tile_count == old(self).tile_count,
            final(self).min_balls_on_line == old(self).min_balls_on_line,
            final(self).score == old(self).score,
            path is Some <==> old(self).can_move(*to),
            path is Some ==> {
                &&& is_shortest_path(
                    old(self),
                    path.unwrap()@,
                    old(self).active_ball.unwrap(),
                    *to,
                )
                &&& final(self)@ == spec_moved(old(self)@, old(self).active_ball.unwrap(), *to)
                &&& final(self).active_ball is None
            },
            path is None ==> final(self)@ == old(self)@ && final(self).active_ball == old(
                self,
            ).active_ball,
    {
        match self.active_ball {
            None => None,
            Some(from) => {
                if from == *to {
                    return None;
                }
                match self.get_path_to_move(&from, to) {
                    None => None,
                    Some(path) => {
                        let ball = self.tiles[from.0 as usize][from.1 as usize];
                        assert(ball == self@[from]);
                        self.set(from, None);
                        self.set(*to, ball);
                        Some(path)
                    },
                }
            },
        }
    }
}

/// A cell that the ball does not touch, and whose neighbors apart from the
/// ball's own cell all hold a ball, cannot be reached, however near it
/// lies.
pub proof fn lemma_walled_off(board: &Board, from: Coordinates, to: Coordinates)
    requires
        board.wf(),
        from != to,
        !from.adjacent(to),
        forall|d: Coordinates|
            d.in_bounds(board.tile_count as int) && #[trigger] d.adjacent(to) && d != from
                ==> board.ball_at(d) is Some,
    ensures
        !reachable(board, from, to),
{
    if reachable(board, from, to) {
        let way = choose|way: Seq<Coordinates>| is_path(board, way, from, to);
        let last = way.len() - 1;
        assert(last >= 1);
        assert(board.is_free(way[last]) && way[last - 1].adjacent(way[last]));
        let d = way[last - 1];
        assert(d.in_bounds(board.tile_count as int));
        assert(d.adjacent(to));
        if last - 1 >= 1 {
            assert(board.is_free(way[last - 1]));
        }
    }
}

/// A ball whose neighbors all hold a ball goes nowhere.
pub proof fn lemma_shut_in(board: &Board, from: Coordinates, to: Coordinates)
    requires
        board.wf(),
        from != to,
        forall|d: Coordinates|
            d.in_bounds(board.tile_count as int) && #[trigger] from.adjacent(d) ==> board.ball_at(
                d,
            ) is Some,
    ensures
        !reachable(board, from, to),
{
    if reachable(board, from, to) {
        let way = choose|way: Seq<Coordinates>| is_path(board, way, from, to);
        assert(way.len() >= 2);
        assert(board.is_free(way[1]) && way[0].adjacent(way[1]));
    }
}

} // verus!
