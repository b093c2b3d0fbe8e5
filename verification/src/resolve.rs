use vstd::prelude::*;

use crate::ball::BallEntity;
use crate::board::Board;
use crate::coordinates::Coordinates;
use crate::lines::line_views;
use crate::matcher::{cells_on_board, Tiles};
use crate::score::{lemma_score_grows, spec_gain_limit, spec_runs_score, spec_score_upto};

verus! {

/// The cell lies in one of the runs.
pub open spec fn covered(runs: Seq<Seq<Coordinates>>, c: Coordinates) -> bool {
    exists|i: int, j: int|
        0 <= i < runs.len() && 0 <= j < runs[i].len() && #[trigger] runs[i][j] == c
}

/// The cell lies in one of the first `i` runs, or among the first `j` cells
/// of the run that follows them.
pub open spec fn covered_upto(runs: Seq<Seq<Coordinates>>, i: int, j: int, c: Coordinates) -> bool {
    exists|a: int, b: int|
        0 <= a < runs.len() && 0 <= b < runs[a].len() && (a < i || (a == i && b < j))
            && #[trigger] runs[a][b] == c
}

/// The grid after every cell of every run has been emptied.
pub open spec fn spec_cleared(tiles: Tiles, runs: Seq<Seq<Coordinates>>) -> Tiles {
    Map::new(
        |c: Coordinates| tiles.dom().contains(c),
        |c: Coordinates|
            if covered(runs, c) {
                None
            } else {
                tiles[c]
            },
    )
}

/// `balls` lists, each once and with its cell, the balls that stood on the
/// cells of the first `i` runs and the first `j` cells of the next.
pub open spec fn removal_upto(
    balls: Seq<(Coordinates, BallEntity)>,
    tiles: Tiles,
    runs: Seq<Seq<Coordinates>>,
    i: int,
    j: int,
) -> bool {
    &&& forall|k: int|
        0 <= k < balls.len() ==> {
            &&& covered_upto(runs, i, j, (#[trigger] balls[k]).0)
            &&& tiles.dom().contains(balls[k].0)
            &&& tiles[balls[k].0] == Some(balls[k].1)
        }
    &&& forall|k: int, l: int|
        0 <= k < l < balls.len() ==> (#[trigger] balls[k]).0 != (#[trigger] balls[l]).0
    &&& forall|c: Coordinates|
        tiles.dom().contains(c) && #[trigger] covered_upto(runs, i, j, c) && tiles[c] is Some
            ==> exists|k: int| 0 <= k < balls.len() && (#[trigger] balls[k]).0 == c
}

/// `balls` lists, each once and with its cell, the balls that stood on the
/// cells of the runs.
pub open spec fn removal_of(
    balls: Seq<(Coordinates, BallEntity)>,
    tiles: Tiles,
    runs: Seq<Seq<Coordinates>>,
) -> bool {
    removal_upto(balls, tiles, runs, runs.len() as int, 0)
}

pub proof fn lemma_covered_step(runs: Seq<Seq<Coordinates>>, i: int, j: int, c: Coordinates)
    requires
        0 <= i < runs.len(),
        0 <= j < runs[i].len(),
    ensures
        covered_upto(runs, i, j + 1, c) <==> covered_upto(runs, i, j, c) || runs[i][j] == c,
{
    if covered_upto(runs, i, j + 1, c) {
        let (a, b) = choose|a: int, b: int|
            0 <= a < runs.len() && 0 <= b < runs[a].len() && (a < i || (a == i && b < j + 1))
                && #[trigger] runs[a][b] == c;
        if !(a == i && b == j) {
            assert(runs[a][b] == c);
        }
    }
    if covered_upto(runs, i, j, c) {
        let (a, b) = choose|a: int, b: int|
            0 <= a < runs.len() && 0 <= b < runs[a].len() && (a < i || (a == i && b < j))
                && #[trigger] runs[a][b] == c;
        assert(runs[a][b] == c);
    }
    if runs[i][j] == c {
        assert(covered_upto(runs, i, j + 1, c));
    }
}

pub proof fn lemma_covered_next_run(runs: Seq<Seq<Coordinates>>, i: int, c: Coordinates)
    requires
        0 <= i < runs.len(),
    ensures
        covered_upto(runs, i, runs[i].len() as int, c) <==> covered_upto(runs, i + 1, 0, c),
{
    if covered_upto(runs, i, runs[i].len() as int, c) {
        let (a, b) = choose|a: int, b: int|
            0 <= a < runs.len() && 0 <= b < runs[a].len() && (a < i || (a == i && b < runs[i].len()))
                && #[trigger] runs[a][b] == c;
        assert(runs[a][b] == c);
    }
    if covered_upto(runs, i + 1, 0, c) {
        let (a, b) = choose|a: int, b: int|
            0 <= a < runs.len() && 0 <= b < runs[a].len() && (a < i + 1 || (a == i + 1 && b < 0))
                && #[trigger] runs[a][b] == c;
        assert(runs[a][b] == c);
    }
}

pub proof fn lemma_covered_all(runs: Seq<Seq<Coordinates>>, c: Coordinates)
    ensures
        covered_upto(runs, runs.len() as int, 0, c) <==> covered(runs, c),
        !covered_upto(runs, 0, 0, c),
{
    if covered_upto(runs, runs.len() as int, 0, c) {
        let (a, b) = choose|a: int, b: int|
            0 <= a < runs.len() && 0 <= b < runs[a].len() && (a < runs.len() || (a == runs.len() && b
                < 0)) && #[trigger] runs[a][b] == c;
        assert(runs[a][b] == c);
    }
    if covered(runs, c) {
        let (a, b) = choose|a: int, b: int|
            0 <= a < runs.len() && 0 <= b < runs[a].len() && #[trigger] runs[a][b] == c;
        assert(runs[a][b] == c);
    }
}

/// What a pass over the board took away: the runs it found, and each ball
/// that stood on them, with its cell.
pub struct Despawned {
    pub lines: Vec<Vec<Coordinates>>,
    pub balls: Vec<(Coordinates, BallEntity)>,
}

impl Board {
    /// The score leaves room for what one turn can gain.
    pub open spec fn score_has_room(&self) -> bool {
        self.score + spec_gain_limit(self.tile_count as int) <= u32::MAX
    }

    /// Whether the score leaves room for what one turn can gain.
    pub fn has_score_room(&self) -> (room: bool)
        ensures
            room == self.score_has_room(),
    {
        let count: u64 = self.tile_count as u64;
        assert(16 * count * count <= 16 * 255 * 255) by (nonlinear_arith)
            requires
                0 <= count <= 255,
        ;
        (self.score as u64) + 16 * count * count <= 0xffff_ffffu64
    }

    /// Finds every run that is long enough, adds two points to the score for
    /// each cell of each run, and empties the cells. A ball on a cell of two
    /// runs counts in both and is taken away once.
    pub fn despawn_balls_and_inc_score(&mut self) -> (despawned: Despawned)
        requires
            old(self).wf(),
            old(self).score_has_room(),
        ensures
            final(self).wf(),
            final(self).tile_count == old(self).tile_count,
            final(self).min_balls_on_line == old(self).min_balls_on_line,
            line_views(despawned.lines@) == old(self).spec_matches(),
            final(self)@ == spec_cleared(old(self)@, old(self).spec_matches()),
            final(self).score == old(self).score + spec_runs_score(old(self).spec_matches()),
            removal_of(despawned.balls@, old(self)@, old(self).spec_matches()),
            final(self).active_ball == (match old(self).active_ball {
                Some(active) => if covered(old(self).spec_matches(), active) {
                    None
                } else {
                    Some(active)
                },
                None => None,
            }),
    {
        let lines = self.get_balls_for_despawn();
        let ghost runs = line_views(lines@);
        let ghost tiles = self@;
        let ghost n = self.tile_count as int;
        let mut balls: Vec<(Coordinates, BallEntity)> = Vec::new();
        let mut i: usize = 0;
        proof {
            assert forall|c: Coordinates| !covered_upto(runs, 0, 0, c) by {
                lemma_covered_all(runs, c);
            }
        }
        while i < lines.len()
            invariant
                self.wf(),
                self.tile_count == old(self).tile_count,
                n == self.tile_count,
                self.min_balls_on_line == old(self).min_balls_on_line,
                tiles == old(self)@,
                runs == line_views(lines@),
                cells_on_board(runs, n),
                i <= lines@.len(),
                spec_runs_score(runs) <= spec_gain_limit(n),
                old(self).score_has_room(),
                self.score == old(self).score + spec_score_upto(runs, i as int),
                forall|c: Coordinates|
                    c.in_bounds(n) ==> self.ball_at(c) == (if #[trigger] covered_upto(
                        runs,
                        i as int,
                        0,
                        c,
                    ) {
                        None
                    } else {
                        tiles[c]
                    }),
                removal_upto(balls@, tiles, runs, i as int, 0),
                self.active_ball == (match old(self).active_ball {
                    Some(active) => if covered_upto(runs, i as int, 0, active) {
                        None
                    } else {
                        Some(active)
                    },
                    None => None,
                }),
            decreases lines@.len() - i,
        {
            let line = &lines[i];
            proof {
                lemma_score_grows(runs, i as int + 1, runs.len() as int);
                lemma_score_grows(runs, i as int, i as int + 1);
                assert(16 * n * n <= 16 * 255 * 255) by (nonlinear_arith)
                    requires
                        0 <= n <= 255,
                ;
                assert(runs[i as int] == line@);
            }
            let gain: u32 = line.len() as u32 * 2;
            self.score = self.score + gain;
            let mut j: usize = 0;
            while j < line.len()
                invariant
                    self.wf(),
                    self.tile_count == old(self).tile_count,
                    n == self.tile_count,
                    self.min_balls_on_line == old(self).min_balls_on_line,
                    tiles == old(self)@,
                    runs == line_views(lines@),
                    cells_on_board(runs, n),
                    i < lines@.len(),
                    line@ == runs[i as int],
                    j <= line@.len(),
                    self.score == old(self).score + spec_score_upto(runs, i as int + 1),
                    forall|c: Coordinates|
                        c.in_bounds(n) ==> self.ball_at(c) == (if #[trigger] covered_upto(
                            runs,
                            i as int,
                            j as int,
                            c,
                        ) {
                            None
                        } else {
                            tiles[c]
                        }),
                    removal_upto(balls@, tiles, runs, i as int, j as int),
                    self.active_ball == (match old(self).active_ball {
                        Some(active) => if covered_upto(runs, i as int, j as int, active) {
                            None
                        } else {
                            Some(active)
                        },
                        None => None,
                    }),
                decreases line@.len() - j,
            {
                let c = line[j];
                assert(runs[i as int][j as int].in_bounds(n));
                let ghost balls_before = balls@;
                let ghost here = *self;
                match self.tiles[c.0 as usize][c.1 as usize] {
                    Some(ball) => {
                        self.set(c, None);
                        balls.push((c, ball));
                        proof {
                            assert(here@[c] == here.ball_at(c));
                            assert(!covered_upto(runs, i as int, j as int, c));
                            assert(balls@[balls_before.len() as int].0 == c);
                        }
                    },
                    None => {},
                }
                proof {
                    assert forall|d: Coordinates| #[trigger]
                        covered_upto(runs, i as int, j + 1, d) == (covered_upto(
                            runs,
                            i as int,
                            j as int,
                            d,
                        ) || d == c) by {
                        lemma_covered_step(runs, i as int, j as int, d);
                    }
                    assert forall|d: Coordinates| d.in_bounds(n) implies self.ball_at(d) == (
                    if #[trigger] covered_upto(runs, i as int, j + 1, d) {
                        None
                    } else {
                        tiles[d]
                    }) by {
                        lemma_covered_step(runs, i as int, j as int, d);
                        assert(self@[d] == self.ball_at(d));
                        assert(here@[d] == here.ball_at(d));
                    }
                    assert(removal_upto(balls@, tiles, runs, i as int, j + 1)) by {
                        assert forall|k: int| 0 <= k < balls@.len() implies {
                            &&& covered_upto(runs, i as int, j + 1, (#[trigger] balls@[k]).0)
                            &&& tiles.dom().contains(balls@[k].0)
                            &&& tiles[balls@[k].0] == Some(balls@[k].1)
                        } by {
                            if k < balls_before.len() {
                                assert(balls@[k] == balls_before[k]);
                            }
                        }
                        assert forall|k: int, l: int| 0 <= k < l < balls@.len() implies (
                        #[trigger] balls@[k]).0 != (#[trigger] balls@[l]).0 by {
                            assert(balls@[k] == balls_before[k]);
                            if l < balls_before.len() {
                                assert(balls@[l] == balls_before[l]);
                            }
                        }
                        assert forall|d: Coordinates|
                            tiles.dom().contains(d) && #[trigger] covered_upto(
                                runs,
                                i as int,
                                j + 1,
                                d,
                            ) && tiles[d] is Some implies exists|k: int|
                            0 <= k < balls@.len() && (#[trigger] balls@[k]).0 == d by {
                            if covered_upto(runs, i as int, j as int, d) {
                                let k = choose|k: int|
                                    0 <= k < balls_before.len() && (#[trigger] balls_before[k]).0
                                        == d;
                                assert(balls@[k] == balls_before[k]);
                            } else {
                                assert(d == c);
                                assert(here@[c] == here.ball_at(c));
                                assert(balls@[balls_before.len() as int].0 == c);
                            }
                        }
                    }
                }
                j += 1;
            }
            proof {
                assert forall|d: Coordinates| #[trigger]
                    covered_upto(runs, i + 1, 0, d) == covered_upto(
                        runs,
                        i as int,
                        line@.len() as int,
                        d,
                    ) by {
                    lemma_covered_next_run(runs, i as int, d);
                }
            }
            i += 1;
        }
        proof {
            assert forall|d: Coordinates| #[trigger]
                covered(runs, d) == covered_upto(runs, runs.len() as int, 0, d) by {
                lemma_covered_all(runs, d);
            }
            assert forall|d: Coordinates| self@.dom().contains(d) implies #[trigger] self@[d]
                == spec_cleared(tiles, runs)[d] by {
                assert(self@[d] == self.ball_at(d));
            }
            assert(self@ =~= spec_cleared(tiles, runs));
        }
        Despawned { lines, balls }
    }
}

impl Board {
    /// Takes every ball off the board and disarms it; the score stays. The
    /// balls that stood on the board are returned, each once, with its
    /// cell, in the order of the grid.
    pub fn despawn_board_balls(&mut self) -> (balls: Vec<(Coordinates, BallEntity)>)
        requires
            old(self).wf(),
        ensures
            final(self).wf(),
            final(self).tile_count == old(self).tile_count,
            final(self).min_balls_on_line == old(self).min_balls_on_line,
            final(self).score == old(self).score,
            final(self).active_ball is None,
            forall|c: Coordinates|
                c.in_bounds(old(self).tile_count as int) ==> final(self).ball_at(c) is None,
            forall|k: int|
                0 <= k < balls@.len() ==> (#[trigger] balls@[k]).0.in_bounds(
                    old(self).tile_count as int,
                ) && old(self).ball_at(balls@[k].0) == Some(balls@[k].1),
            forall|k: int, l: int|
                0 <= k < l < balls@.len() ==> (#[trigger] balls@[k]).0.precedes(
                    (#[trigger] balls@[l]).0,
                ),
            forall|c: Coordinates|
                c.in_bounds(old(self).tile_count as int) && old(self).ball_at(c) is Some
                    ==> exists|k: int| 0 <= k < balls@.len() && (#[trigger] balls@[k]).0 == c,
    {
        let mut balls: Vec<(Coordinates, BallEntity)> = Vec::new();
        let count = self.tile_count;
        let ghost n = count as int;
        self.active_ball = None;
        let mut x: u8 = 0;
        while x < count
            invariant
                self.wf(),
                count == self.tile_count,
                n == count,
                self.tile_count == old(self).tile_count,
                self.min_balls_on_line == old(self).min_balls_on_line,
                self.score == old(self).score,
                self.active_ball is None,
                x <= count,
                forall|c: Coordinates|
                    c.in_bounds(n) ==> #[trigger] self.ball_at(c) == (if c.0 < x {
                        None
                    } else {
                        old(self).ball_at(c)
                    }),
                forall|k: int|
                    0 <= k < balls@.len() ==> (#[trigger] balls@[k]).0.in_bounds(n) && balls@[k].0.0
                        < x && old(self).ball_at(balls@[k].0) == Some(balls@[k].1),
                forall|k: int, l: int|
                    0 <= k < l < balls@.len() ==> (#[trigger] balls@[k]).0.precedes(
                        (#[trigger] balls@[l]).0,
                    ),
                forall|c: Coordinates|
                    c.in_bounds(n) && c.0 < x && old(self).ball_at(c) is Some ==> exists|k: int|
                        0 <= k < balls@.len() && (#[trigger] balls@[k]).0 == c,
            decreases count - x,
        {
            let mut y: u8 = 0;
            while y < count
                invariant
                    self.wf(),
                    count == self.tile_count,
                    n == count,
                    self.tile_count == old(self).tile_count,
                    self.min_balls_on_line == old(self).min_balls_on_line,
                    self.score == old(self).score,
                    self.active_ball is None,
                    x < count,
                    y <= count,
                    forall|c: Coordinates|
                        c.in_bounds(n) ==> #[trigger] self.ball_at(c) == (if c.0 < x || (c.0 == x
                            && c.1 < y) {
                            None
                        } else {
                            old(self).ball_at(c)
                        }),
                    forall|k: int|
                        0 <= k < balls@.len() ==> (#[trigger] balls@[k]).0.in_bounds(n) && (
                        balls@[k].0.0 < x || (balls@[k].0.0 == x && balls@[k].0.1 < y)) && old(
                            self,
                        ).ball_at(balls@[k].0) == Some(balls@[k].1),
                    forall|k: int, l: int|
                        0 <= k < l < balls@.len() ==> (#[trigger] balls@[k]).0.precedes(
                            (#[trigger] balls@[l]).0,
                        ),
                    forall|c: Coordinates|
                        c.in_bounds(n) && (c.0 < x || (c.0 == x && c.1 < y)) && old(self).ball_at(
                            c,
                        ) is Some ==> exists|k: int|
                            0 <= k < balls@.len() && (#[trigger] balls@[k]).0 == c,
                decreases count - y,
            {
                let here = Coordinates(x, y);
                let ghost before = balls@;
                let ghost board = *self;
                let tile = self.tiles[x as usize][y as usize];
                assert(self.ball_at(here) == old(self).ball_at(here));
                assert(tile == old(self).ball_at(here));
                match tile {
                    Some(ball) => {
                        self.set(here, None);
                        balls.push((here, ball));
                        proof {
                            assert(balls@[before.len() as int] == (here, ball));
                            assert forall|c: Coordinates| c.in_bounds(n) implies #[trigger] self.ball_at(
                                c,
                            ) == (if c.0 < x || (c.0 == x && c.1 < y + 1) {
                                None
                            } else {
                                old(self).ball_at(c)
                            }) by {
                                assert(self@[c] == self.ball_at(c));
                                assert(board@[c] == board.ball_at(c));
                            }
                            assert forall|k: int| 0 <= k < balls@.len() implies (
                            #[trigger] balls@[k]).0.in_bounds(n) && (balls@[k].0.0 < x || (
                            balls@[k].0.0 == x && balls@[k].0.1 < y + 1)) && old(self).ball_at(
                                balls@[k].0,
                            ) == Some(balls@[k].1) by {
                                if k < before.len() {
                                    assert(balls@[k] == before[k]);
                                }
                            }
                            assert forall|k: int, l: int| 0 <= k < l < balls@.len() implies (
                            #[trigger] balls@[k]).0.precedes((#[trigger] balls@[l]).0) by {
                                assert(balls@[k] == before[k]);
                                if l < before.len() {
                                    assert(balls@[l] == before[l]);
                                }
                            }
                        }
                    },
                    None => {},
                }
                proof {
                    assert forall|c: Coordinates|
                        c.in_bounds(n) && (c.0 < x || (c.0 == x && c.1 < y + 1)) && old(
                            self,
                        ).ball_at(c) is Some implies exists|k: int|
                        0 <= k < balls@.len() && (#[trigger] balls@[k]).0 == c by {
                        if c == here {
                            assert(tile is Some);
                            assert(balls@[before.len() as int].0 == here);
                        } else {
                            let k = choose|k: int|
                                0 <= k < before.len() && (#[trigger] before[k]).0 == c;
                            assert(balls@[k] == before[k]);
                        }
                    }
                }
                y += 1;
            }
            x += 1;
        }
        balls
    }
}

} // verus!
