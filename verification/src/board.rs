use rand::rngs::StdRng;
use vstd::prelude::*;

use crate::ball::BallEntity;
use crate::coordinates::Coordinates;
use crate::random::choose_coordinates;

verus! {

/// The grid and what stands on it, the ball that is armed for a move, and
/// the score.
pub struct Board {
    /// Cells along each side.
    pub tile_count: u8,
    /// The shortest run that is cleared and scored.
    pub min_balls_on_line: usize,
    /// `tiles[a][b]` is what stands on `Coordinates(a, b)`.
    pub tiles: Vec<Vec<Option<BallEntity>>>,
    /// The cell of the ball that the next move takes, if one is chosen.
    pub active_ball: Option<Coordinates>,
    pub score: u32,
}

/// The measures of the usual board.
pub struct GameOptions;

impl GameOptions {
    /// Cells along each side.
    pub const TILE_COUNT: u8 = 9;

    /// The shortest run that is cleared.
    pub const MIN_BALLS_ON_LINE: usize = 5;
}

impl Default for Board {
    /// The usual board, empty.
    fn default() -> (board: Board)
        ensures
            board.wf(),
            board.tile_count == GameOptions::TILE_COUNT,
            board.min_balls_on_line == GameOptions::MIN_BALLS_ON_LINE,
            board.active_ball is None,
            board.score == 0,
            forall|c: Coordinates|
                c.in_bounds(GameOptions::TILE_COUNT as int) ==> board.ball_at(c) is None,
    {
        Board::new(GameOptions::TILE_COUNT, GameOptions::MIN_BALLS_ON_LINE)
    }
}

/// The four cells that share a side with `c`, without those that fall off
/// a board of side `count`.
pub open spec fn spec_neighbors(count: int, c: Coordinates) -> Seq<Coordinates> {
    let up = if c.0 > 0 {
        seq![Coordinates((c.0 - 1) as u8, c.1)]
    } else {
        Seq::empty()
    };
    let down = if c.0 < count - 1 {
        seq![Coordinates((c.0 + 1) as u8, c.1)]
    } else {
        Seq::empty()
    };
    let left = if c.1 > 0 {
        seq![Coordinates(c.0, (c.1 - 1) as u8)]
    } else {
        Seq::empty()
    };
    let right = if c.1 < count - 1 {
        seq![Coordinates(c.0, (c.1 + 1) as u8)]
    } else {
        Seq::empty()
    };
    up + down + left + right
}

impl Board {
    /// The grid is square with one entry for each cell, the threshold is
    /// positive, and an armed cell holds a ball.
    pub open spec fn wf(&self) -> bool {
        &&& self.tile_count >= 1
        &&& self.min_balls_on_line >= 1
        &&& self.tiles@.len() == self.tile_count
        &&& forall|i: int|
            0 <= i < self.tile_count ==> (#[trigger] self.tiles@[i])@.len() == self.tile_count
        &&& match self.active_ball {
            Some(c) => c.in_bounds(self.tile_count as int) && self.ball_at(c) is Some,
            None => true,
        }
    }

    pub open spec fn ball_at(&self, c: Coordinates) -> Option<BallEntity> {
        self.tiles@[c.0 as int]@[c.1 as int]
    }

    pub open spec fn is_free(&self, c: Coordinates) -> bool {
        c.in_bounds(self.tile_count as int) && self.ball_at(c) is None
    }

    /// No cell is left for another ball.
    pub open spec fn is_full(&self) -> bool {
        forall|c: Coordinates| !#[trigger] self.is_free(c)
    }

    /// The occupancy as a map: one entry for each cell of the grid, and no
    /// other.
    pub open spec fn view(&self) -> Map<Coordinates, Option<BallEntity>> {
        Map::new(
            |c: Coordinates| c.in_bounds(self.tile_count as int),
            |c: Coordinates| self.ball_at(c),
        )
    }

    /// An empty board of the given side and threshold, with score zero.
    pub fn new(tile_count: u8, min_balls_on_line: usize) -> (board: Board)
        requires
            tile_count >= 1,
            min_balls_on_line >= 1,
        ensures
            board.wf(),
            board.tile_count == tile_count,
            board.min_balls_on_line == min_balls_on_line,
            board.active_ball is None,
            board.score == 0,
            forall|c: Coordinates| c.in_bounds(tile_count as int) ==> board.ball_at(c) is None,
    {
        let mut tiles: Vec<Vec<Option<BallEntity>>> = Vec::new();
        let mut x: u8 = 0;
        while x < tile_count
            invariant
                x <= tile_count,
                tiles@.len() == x,
                forall|i: int| 0 <= i < x ==> (#[trigger] tiles@[i])@.len() == tile_count,
                forall|i: int, j: int|
                    0 <= i < x && 0 <= j < tile_count ==> (#[trigger] tiles@[i]@[j]) is None,
            decreases tile_count - x,
        {
            let mut row: Vec<Option<BallEntity>> = Vec::new();
            let mut y: u8 = 0;
            while y < tile_count
                invariant
                    y <= tile_count,
                    row@.len() == y,
                    forall|j: int| 0 <= j < y ==> (#[trigger] row@[j]) is None,
                decreases tile_count - y,
            {
                row.push(None);
                y += 1;
            }
            tiles.push(row);
            x += 1;
        }
        Board { tile_count, min_balls_on_line, tiles, active_ball: None, score: 0 }
    }

    /// Whether `c` is a cell of this board.
    pub fn in_bounds(&self, c: &Coordinates) -> (inside: bool)
        ensures
            inside == c.in_bounds(self.tile_count as int),
    {
        c.0 < self.tile_count && c.1 < self.tile_count
    }

    /// What stands on `c`.
    pub fn get(&self, c: Coordinates) -> (ball: Option<BallEntity>)
        requires
            self.wf(),
            c.in_bounds(self.tile_count as int),
        ensures
            ball == self.ball_at(c),
    {
        self.tiles[c.0 as usize][c.1 as usize]
    }

    /// Overwrites what stands on `c`; every other cell keeps what it had.
    /// Emptying the armed cell disarms it.
    pub fn set(&mut self, c: Coordinates, value: Option<BallEntity>)
        requires
            old(self).wf(),
            c.in_bounds(old(self).tile_count as int),
        ensures
            final(self).wf(),
            final(self)@ == old(self)@.insert(c, value),
            final(self).tile_count == old(self).tile_count,
            final(self).min_balls_on_line == old(self).min_balls_on_line,
            final(self).active_ball == (if value is None && old(self).active_ball == Some(c) {
                None
            } else {
                old(self).active_ball
            }),
            final(self).score == old(self).score,
    {
        self.tiles[c.0 as usize][c.1 as usize] = value;
        if value.is_none() {
            match self.active_ball {
                Some(active) => {
                    if active == c {
                        self.active_ball = None;
                    }
                },
                None => {},
            }
        }
        proof {
            assert forall|d: Coordinates| self@.dom().contains(d) implies #[trigger] self@[d] == old(
                self,
            )@.insert(c, value)[d] by {
                assert(self.ball_at(d) == if d == c {
                    value
                } else {
                    old(self).ball_at(d)
                });
            }
            assert(self@ =~= old(self)@.insert(c, value));
        }
    }

    /// The cells that share a side with `c` and lie on the board.
    pub fn get_neighbors(&self, c: &Coordinates) -> (neighbors: Vec<Coordinates>)
        requires
            self.wf(),
            c.in_bounds(self.tile_count as int),
        ensures
            neighbors@ == spec_neighbors(self.tile_count as int, *c),
            forall|d: Coordinates|
                #![trigger neighbors@.contains(d)]
                #![trigger c.adjacent(d)]
                neighbors@.contains(d) <==> d.in_bounds(self.tile_count as int) && c.adjacent(d),
    {
        let mut neighbors = Vec::new();
        let count = self.tile_count;
        let row = c.0;
        let col = c.1;
        if row > 0 {
            neighbors.push(Coordinates(row - 1, col));
        }
        if row < count - 1 {
            neighbors.push(Coordinates(row + 1, col));
        }
        if col > 0 {
            neighbors.push(Coordinates(row, col - 1));
        }
        if col < count - 1 {
            neighbors.push(Coordinates(row, col + 1));
        }
        proof {
            assert(neighbors@ =~= spec_neighbors(count as int, *c));
            lemma_neighbors_are_adjacent(count as int, *c);
        }
        neighbors
    }

    /// Every free cell, in the order of the grid: by the first index, then
    /// by the second.
    pub fn free_coordinates(&self) -> (free: Vec<Coordinates>)
        requires
            self.wf(),
        ensures
            forall|c: Coordinates| free@.contains(c) <==> self.is_free(c),
            forall|i: int, j: int|
                0 <= i < j < free@.len() ==> (#[trigger] free@[i]).precedes(#[trigger] free@[j]),
    {
        let mut free: Vec<Coordinates> = Vec::new();
        let count = self.tile_count;
        let mut x: u8 = 0;
        while x < count
            invariant
                self.wf(),
                count == self.tile_count,
                x <= count,
                forall|c: Coordinates|
                    #![trigger free@.contains(c)]
                    #![trigger self.is_free(c)]
                    free@.contains(c) <==> self.is_free(c) && c.0 < x,
                forall|i: int, j: int|
                    0 <= i < j < free@.len() ==> (#[trigger] free@[i]).precedes(
                        #[trigger] free@[j],
                    ),
            decreases count - x,
        {
            let mut y: u8 = 0;
            while y < count
                invariant
                    self.wf(),
                    count == self.tile_count,
                    x < count,
                    y <= count,
                    forall|c: Coordinates|
                        #![trigger free@.contains(c)]
                        #![trigger self.is_free(c)]
                        free@.contains(c) <==> self.is_free(c) && (c.0 < x || (c.0 == x && c.1
                            < y)),
                    forall|i: int, j: int|
                        0 <= i < j < free@.len() ==> (#[trigger] free@[i]).precedes(
                            #[trigger] free@[j],
                        ),
                decreases count - y,
            {
                let here = Coordinates(x, y);
                if self.tiles[x as usize][y as usize].is_none() {
                    let ghost before = free@;
                    free.push(here);
                    proof {
                        assert(free@[before.len() as int] == here);
                        assert forall|c: Coordinates|
                            #![trigger free@.contains(c)]
                            #![trigger self.is_free(c)]
                            free@.contains(c) <==> self.is_free(c) && (c.0 < x || (c.0 == x && c.1
                                < y + 1)) by {
                            if free@.contains(c) {
                                let k = choose|k: int| 0 <= k < free@.len() && free@[k] == c;
                                if k < before.len() {
                                    assert(before[k] == c);
                                    assert(before.contains(c));
                                }
                            }
                            if self.is_free(c) && (c.0 < x || (c.0 == x && c.1 < y + 1)) {
                                if c == here {
                                } else {
                                    assert(before.contains(c));
                                    let k = choose|k: int| 0 <= k < before.len() && before[k] == c;
                                    assert(free@[k] == c);
                                }
                            }
                        }
                        assert forall|i: int, j: int| 0 <= i < j < free@.len() implies (
                        #[trigger] free@[i]).precedes(#[trigger] free@[j]) by {
                            if j == before.len() {
                                assert(before[i] == free@[i]);
                                assert(before.contains(free@[i]));
                            } else {
                                assert(before[i] == free@[i] && before[j] == free@[j]);
                            }
                        }
                    }
                } else {
                    assert(!self.is_free(here));
                }
                y += 1;
            }
            x += 1;
        }
        free
    }

    /// One of the free cells, picked at random; `None` when the board is
    /// full, and only then.
    pub fn get_free_tile(&self, rng: &mut StdRng) -> (tile: Option<Coordinates>)
        requires
            self.wf(),
        ensures
            tile is None <==> self.is_full(),
            tile is Some ==> self.is_free(tile.unwrap()),
    {
        let free = self.free_coordinates();
        let tile = choose_coordinates(rng, &free);
        proof {
            if free@.len() > 0 {
                assert(self.is_free(tile.unwrap()));
            } else {
                assert forall|c: Coordinates| !#[trigger] self.is_free(c) by {
                    if self.is_free(c) {
                        assert(free@.contains(c));
                    }
                }
            }
        }
        tile
    }
}

/// A cell is a neighbor exactly when it lies on the board and shares a side.
pub proof fn lemma_neighbors_are_adjacent(count: int, c: Coordinates)
    requires
        1 <= count <= 255,
        c.in_bounds(count),
    ensures
        forall|d: Coordinates|
            #![trigger spec_neighbors(count, c).contains(d)]
            #![trigger c.adjacent(d)]
            spec_neighbors(count, c).contains(d) <==> d.in_bounds(count) && c.adjacent(d),
{
    let s = spec_neighbors(count, c);
    assert forall|d: Coordinates| s.contains(d) <==> d.in_bounds(count) && c.adjacent(d) by {
        if s.contains(d) {
            let k = choose|k: int| 0 <= k < s.len() && s[k] == d;
            assert(s[k] == d);
        }
        if d.in_bounds(count) && c.adjacent(d) {
            if d.1 == c.1 && d.0 + 1 == c.0 {
                assert(s[0] == d);
            } else if d.1 == c.1 && c.0 + 1 == d.0 {
                let k = if c.0 > 0 { 1int } else { 0int };
                assert(s[k] == d);
            } else if d.0 == c.0 && d.1 + 1 == c.1 {
                let k = (if c.0 > 0 { 1int } else { 0int }) + (if c.0 < count - 1 { 1int } else { 0int });
                assert(s[k] == d);
            } else {
                let k = (if c.0 > 0 { 1int } else { 0int }) + (if c.0 < count - 1 { 1int } else { 0int })
                    + (if c.1 > 0 { 1int } else { 0int });
                assert(s[k] == d);
            }
        }
    }
}

/// The cells of a board of side `count` that come before `Coordinates(x, y)`
/// in the order of the grid.
pub open spec fn cells_before(count: int, x: int, y: int) -> Set<Coordinates> {
    Set::new(|c: Coordinates| c.in_bounds(count) && (c.0 < x || (c.0 == x && c.1 < y)))
}

proof fn lemma_cells_before(count: int, x: int, y: int)
    requires
        1 <= count <= 255,
        0 <= x <= count,
        0 <= y <= count,
        x < count || y == 0,
    ensures
        cells_before(count, x, y).finite(),
        cells_before(count, x, y).len() == x * count + y,
    decreases x, y,
{
    if y > 0 {
        lemma_cells_before(count, x, y - 1);
        let last = Coordinates(x as u8, (y - 1) as u8);
        assert(cells_before(count, x, y) =~= cells_before(count, x, y - 1).insert(last));
        assert(!cells_before(count, x, y - 1).contains(last));
    } else if x > 0 {
        lemma_cells_before(count, x - 1, count);
        assert(cells_before(count, x, 0) =~= cells_before(count, x - 1, count));
        assert((x - 1) * count + count == x * count) by (nonlinear_arith);
    } else {
        assert(cells_before(count, 0, 0) =~= Set::empty());
    }
}

/// The board holds one entry for each cell of its grid and no other: as
/// many as the square of its side.
pub proof fn lemma_one_entry_per_cell(board: &Board)
    requires
        board.wf(),
    ensures
        forall|c: Coordinates| board@.dom().contains(c) <==> c.in_bounds(board.tile_count as int),
        board@.dom().finite(),
        board@.dom().len() == board.tile_count * board.tile_count,
{
    let count = board.tile_count as int;
    lemma_cells_before(count, count, 0);
    assert(board@.dom() =~= cells_before(count, count, 0));
}

} // verus!
