use rand::rngs::StdRng;
use vstd::prelude::*;

use crate::ball::{BallColor, BallEntity};
use crate::board::Board;
use crate::coordinates::Coordinates;
use crate::events::{ChangeNextBallsEvent, IncrementCurrentGameScore};
use crate::lines::line_views;
use crate::matcher::spec_matches_of;
use crate::path::{is_shortest_path, spec_moved};
use crate::resolve::{covered, removal_of, spec_cleared, Despawned};
use crate::score::{spec_runs_score, spec_score_upto};
use crate::spawn::{
    colors_from, fresh_cells, has_three_free, lemma_filled_early, lemma_placed_keeps,
    lemma_placed_prefix, lemma_three_placed, spec_placed, spec_spawned_ball, NextBall,
    SpawnOutcome,
};

verus! {

/// A round is played until a ball finds no free cell.
#[derive(Debug, Clone, Copy, PartialEq, Eq, Structural)]
pub enum GameState {
    Playing,
    GameOver,
}

/// A round: the board, the three upcoming balls, and whether it is over.
pub struct Game {
    pub board: Board,
    pub next_balls: Vec<NextBall>,
    pub state: GameState,
}

/// What one request to move has done, for whoever draws the board.
pub struct TurnReport {
    /// The way that the ball took; `None` when nothing moved.
    pub path: Option<Vec<Coordinates>>,
    /// The ball that moved.
    pub ball: Option<BallEntity>,
    /// What the move itself cleared.
    pub despawned: Option<Despawned>,
    /// The batch that followed a move which cleared nothing.
    pub spawn: Option<SpawnOutcome>,
    /// What was cleared once the batch lay on the board.
    pub cascade: Option<Despawned>,
    /// Present when the upcoming balls were rolled anew.
    pub change_next: Option<ChangeNextBallsEvent>,
}

/// The request falls on a round that goes on, with a ball armed and a way
/// for it to `to`.
pub open spec fn spec_movable(game: &Game, to: Coordinates) -> bool {
    game.state == GameState::Playing && game.board.can_move(to)
}

/// What a turn reports and leaves behind when the move itself completes
/// runs: they are cleared and scored, and no batch follows.
pub open spec fn spec_turn_matched(
    before: &Game,
    after: &Game,
    report: &TurnReport,
    to: Coordinates,
) -> bool {
    let moved = spec_moved(before.board@, before.board.active_ball.unwrap(), to);
    let runs = spec_matches_of(
        moved,
        before.board.tile_count as int,
        before.board.min_balls_on_line as int,
    );
    &&& report.spawn is None
    &&& report.cascade is None
    &&& report.change_next is None
    &&& after.board@ == spec_cleared(moved, runs)
    &&& after.board.score == before.board.score + spec_runs_score(runs)
    &&& after.state == before.state
    &&& after.next_balls == before.next_balls
}

/// What a turn reports and leaves behind when the move completes no run: a
/// batch is placed on the board as it stands after the move. If the board
/// fills up before the batch is out, the round is over. Else the runs that
/// the batch has completed are cleared and scored, once, and the upcoming
/// balls are rolled anew.
pub open spec fn spec_turn_spawned(
    before: &Game,
    after: &Game,
    report: &TurnReport,
    to: Coordinates,
    handles: Seq<u64>,
) -> bool {
    let count = before.board.tile_count as int;
    let min = before.board.min_balls_on_line as int;
    let moved = spec_moved(before.board@, before.board.active_ball.unwrap(), to);
    &&& report.spawn is Some
    &&& {
        let cells = report.spawn.unwrap().cells();
        let filled = spec_placed(moved, cells, handles, cells.len() as int);
        let runs = spec_matches_of(filled, count, min);
        &&& fresh_cells(moved, cells)
        &&& colors_from(cells, before.next_balls@)
        &&& report.spawn.unwrap() is BoardFull <==> !has_three_free(moved)
        &&& match report.spawn.unwrap() {
            SpawnOutcome::Placed(_) => {
                &&& cells.len() == 3
                &&& report.cascade is Some
                &&& line_views(report.cascade.unwrap().lines@) == runs
                &&& removal_of(report.cascade.unwrap().balls@, filled, runs)
                &&& report.change_next is Some
                &&& after.board@ == spec_cleared(filled, runs)
                &&& after.board.score == before.board.score + spec_runs_score(runs)
                &&& after.state == before.state
            },
            SpawnOutcome::BoardFull(_) => {
                &&& cells.len() < 3
                &&& report.cascade is None
                &&& report.change_next is None
                &&& after.board@ == filled
                &&& after.board.is_full()
                &&& after.board.score == before.board.score
                &&& after.state == GameState::GameOver
                &&& after.next_balls == before.next_balls
            },
        }
    }
}

/// What a request to move reports and leaves behind. A request that cannot
/// be met changes nothing. One that can takes the ball along a way to `to`
/// and disarms it; then the runs that the move has completed are cleared
/// and scored, or, if there are none, a batch follows.
pub open spec fn spec_turn(
    before: &Game,
    after: &Game,
    report: &TurnReport,
    to: Coordinates,
    handles: Seq<u64>,
) -> bool {
    &&& report.path is Some <==> spec_movable(before, to)
    &&& !spec_movable(before, to) ==> {
        &&& after.board@ == before.board@
        &&& after.board.active_ball == before.board.active_ball
        &&& after.board.score == before.board.score
        &&& after.state == before.state
        &&& after.next_balls == before.next_balls
        &&& report.ball is None
        &&& report.despawned is None
        &&& report.spawn is None
        &&& report.cascade is None
        &&& report.change_next is None
    }
    &&& spec_movable(before, to) ==> {
        let from = before.board.active_ball.unwrap();
        let moved = spec_moved(before.board@, from, to);
        let runs = spec_matches_of(
            moved,
            before.board.tile_count as int,
            before.board.min_balls_on_line as int,
        );
        &&& is_shortest_path(&before.board, report.path.unwrap()@, from, to)
        &&& report.ball == before.board@[from]
        &&& after.board.active_ball is None
        &&& report.despawned is Some
        &&& line_views(report.despawned.unwrap().lines@) == runs
        &&& removal_of(report.despawned.unwrap().balls@, moved, runs)
        &&& runs.len() > 0 ==> spec_turn_matched(before, after, report, to)
        &&& runs.len() == 0 ==> spec_turn_spawned(before, after, report, to, handles)
    }
}

impl Game {
    /// The board is well formed and three balls are upcoming.
    pub open spec fn wf(&self) -> bool {
        &&& self.board.wf()
        &&& self.next_balls@.len() == 3
    }

    /// A round on an empty board, with rolled upcoming balls.
    pub fn new(tile_count: u8, min_balls_on_line: usize, rng: &mut StdRng) -> (game: Game)
        requires
            tile_count >= 1,
            min_balls_on_line >= 1,
        ensures
            game.wf(),
            game.state == GameState::Playing,
            game.board.tile_count == tile_count,
            game.board.min_balls_on_line == min_balls_on_line,
            game.board.active_ball is None,
            game.board.score == 0,
            forall|c: Coordinates| c.in_bounds(tile_count as int) ==> game.board.ball_at(c) is None,
    {
        let board = Board::new(tile_count, min_balls_on_line);
        let mut next_balls: Vec<NextBall> = Vec::new();
        next_balls.push(NextBall::new(rng));
        next_balls.push(NextBall::new(rng));
        next_balls.push(NextBall::new(rng));
        Game { board, next_balls, state: GameState::Playing }
    }

    /// Arms the ball on `c`, if the round goes on and a ball is there; a
    /// ball armed before is let go. Nothing else changes.
    pub fn select(&mut self, c: Coordinates) -> (armed: bool)
        requires
            old(self).wf(),
            c.in_bounds(old(self).board.tile_count as int),
        ensures
            final(self).wf(),
            armed == (old(self).state == GameState::Playing && old(self).board.ball_at(c) is Some),
            final(self).board.active_ball == (if armed {
                Some(c)
            } else {
                old(self).board.active_ball
            }),
            final(self).board.tiles == old(self).board.tiles,
            final(self).board.tile_count == old(self).board.tile_count,
            final(self).board.min_balls_on_line == old(self).board.min_balls_on_line,
            final(self).board.score == old(self).board.score,
            final(self).next_balls == old(self).next_balls,
            final(self).state == old(self).state,
    {
        if self.state == GameState::Playing && self.board.get(c).is_some() {
            self.board.active_ball = Some(c);
            true
        } else {
            false
        }
    }

    /// Puts a ball of the given color and handle on `tile`; with no tile,
    /// the round is over and nothing else changes.
    pub fn spawn_at(&mut self, tile: Option<Coordinates>, color: BallColor, entity: u64) -> (placed:
        bool)
        requires
            old(self).wf(),
            tile is Some ==> old(self).board.is_free(tile.unwrap()),
        ensures
            final(self).wf(),
            placed == (tile is Some),
            final(self).board.tile_count == old(self).board.tile_count,
            final(self).board.min_balls_on_line == old(self).board.min_balls_on_line,
            final(self).board.score == old(self).board.score,
            final(self).board.active_ball == old(self).board.active_ball,
            final(self).next_balls == old(self).next_balls,
            match tile {
                Some(c) => final(self).board@ == old(self).board@.insert(
                    c,
                    Some(BallEntity { color, entity }),
                ) && final(self).state == old(self).state,
                None => final(self).board@ == old(self).board@ && final(self).state
                    == GameState::GameOver,
            },
    {
        match tile {
            Some(c) => {
                self.board.set(c, Some(BallEntity::new(color, entity)));
                true
            },
            None => {
                self.state = GameState::GameOver;
                false
            },
        }
    }

    /// Puts a ball of the given color and handle on a free cell picked at
    /// random, and says where. On a full board the round is over, and only
    /// then.
    pub fn spawn_new_ball(&mut self, color: BallColor, entity: u64, rng: &mut StdRng) -> (tile:
        Option<Coordinates>)
        requires
            old(self).wf(),
        ensures
            final(self).wf(),
            tile is None <==> old(self).board.is_full(),
            final(self).board.tile_count == old(self).board.tile_count,
            final(self).board.min_balls_on_line == old(self).board.min_balls_on_line,
            final(self).board.score == old(self).board.score,
            final(self).board.active_ball == old(self).board.active_ball,
            final(self).next_balls == old(self).next_balls,
            match tile {
                Some(c) => old(self).board.is_free(c) && final(self).board@ == old(
                    self,
                ).board@.insert(c, Some(BallEntity { color, entity })) && final(self).state == old(
                    self,
                ).state,
                None => final(self).board@ == old(self).board@ && final(self).state
                    == GameState::GameOver,
            },
    {
        let tile = self.board.get_free_tile(rng);
        self.spawn_at(tile, color, entity);
        tile
    }

    /// Puts the three upcoming balls, in their order, each on a free cell
    /// picked at random, under the handles given. If no cell is left for
    /// one of them, the batch ends there and the round is over; else three
    /// new upcoming balls are rolled. No ball is put onto another.
    pub fn spawn_batch(&mut self, rng: &mut StdRng, handles: &Vec<u64>) -> (outcome: SpawnOutcome)
        requires
            old(self).wf(),
            handles@.len() == 3,
        ensures
            final(self).wf(),
            final(self).board.tile_count == old(self).board.tile_count,
            final(self).board.min_balls_on_line == old(self).board.min_balls_on_line,
            final(self).board.score == old(self).board.score,
            final(self).board.active_ball == old(self).board.active_ball,
            fresh_cells(old(self).board@, outcome.cells()),
            colors_from(outcome.cells(), old(self).next_balls@),
            final(self).board@ == spec_placed(
                old(self).board@,
                outcome.cells(),
                handles@,
                outcome.cells().len() as int,
            ),
            forall|c: Coordinates|
                old(self).board@.dom().contains(c) && old(self).board@[c] is Some
                    ==> #[trigger] final(self).board@[c] == old(self).board@[c],
            outcome is BoardFull <==> !has_three_free(old(self).board@),
            match outcome {
                SpawnOutcome::Placed(cells) => cells@.len() == 3 && final(self).state == old(
                    self,
                ).state,
                SpawnOutcome::BoardFull(cells) => cells@.len() < 3 && final(self).board.is_full()
                    && final(self).state == GameState::GameOver && final(self).next_balls == old(
                    self,
                ).next_balls,
            },
    {
        let ghost tiles = self.board@;
        let mut cells: Vec<(Coordinates, BallColor)> = Vec::new();
        let mut i: usize = 0;
        while i < 3
            invariant
                self.wf(),
                handles@.len() == 3,
                tiles == old(self).board@,
                self.board.tile_count == old(self).board.tile_count,
                self.board.min_balls_on_line == old(self).board.min_balls_on_line,
                self.board.score == old(self).board.score,
                self.board.active_ball == old(self).board.active_ball,
                self.next_balls == old(self).next_balls,
                self.state == old(self).state,
                i <= 3,
                cells@.len() == i,
                fresh_cells(tiles, cells@),
                colors_from(cells@, old(self).next_balls@),
                self.board@ == spec_placed(tiles, cells@, handles@, i as int),
                forall|k: int| 0 <= k < i ==> self.board@[(#[trigger] cells@[k]).0] is Some,
            decreases 3 - i,
        {
            let color = self.next_balls[i].color;
            let ghost cells_before = cells@;
            let ghost board_before = self.board@;
            match self.board.get_free_tile(rng) {
                None => {
                    self.state = GameState::GameOver;
                    proof {
                        lemma_placed_keeps(tiles, cells@, handles@, i as int);
                        assert forall|c: Coordinates| tiles.dom().contains(c) implies #[trigger] spec_placed(
                            tiles,
                            cells@,
                            handles@,
                            cells@.len() as int,
                        )[c] is Some by {
                            assert(!self.board.is_free(c));
                            assert(self.board@[c] == self.board.ball_at(c));
                        }
                        lemma_filled_early(tiles, cells@, handles@);
                    }
                    return SpawnOutcome::BoardFull(cells);
                },
                Some(c) => {
                    self.board.set(c, Some(BallEntity::new(color, handles[i])));
                    cells.push((c, color));
                    proof {
                        lemma_placed_keeps(tiles, cells_before, handles@, i as int);
                        lemma_placed_prefix(tiles, cells_before, cells@, handles@, i as int);
                        assert(cells@[i as int] == (c, color));
                        assert(spec_spawned_ball(cells@, handles@, i as int) == (BallEntity {
                            color,
                            entity: handles@[i as int],
                        }));
                        assert(board_before[c] is None);
                        assert(tiles.dom().contains(c));
                        assert forall|k: int| 0 <= k < cells@.len() implies tiles.dom().contains(
                            (#[trigger] cells@[k]).0,
                        ) && tiles[cells@[k].0] is None by {
                            if k < i {
                                assert(cells@[k] == cells_before[k]);
                            } else {
                                if tiles[c] is Some {
                                    assert(board_before[c] == tiles[c]);
                                }
                            }
                        }
                        assert forall|k: int, l: int| 0 <= k < l < cells@.len() implies (
                        #[trigger] cells@[k]).0 != (#[trigger] cells@[l]).0 by {
                            assert(cells@[k] == cells_before[k]);
                            if l < i {
                                assert(cells@[l] == cells_before[l]);
                            } else {
                                assert(board_before[cells_before[k].0] is Some);
                            }
                        }
                        assert forall|k: int| 0 <= k < cells@.len() implies (
                        #[trigger] cells@[k]).1 == old(self).next_balls@[k].color by {
                            if k < i {
                                assert(cells@[k] == cells_before[k]);
                            }
                        }
                        assert forall|k: int| 0 <= k < i + 1 implies self.board@[(
                        #[trigger] cells@[k]).0] is Some by {
                            if k < i {
                                assert(cells@[k] == cells_before[k]);
                                assert(board_before[cells_before[k].0] is Some);
                            }
                        }
                    }
                },
            }
            i += 1;
        }
        proof {
            lemma_placed_keeps(tiles, cells@, handles@, 3);
            lemma_three_placed(tiles, cells@);
        }
        let ghost filled = self.board;
        let mut k: usize = 0;
        while k < 3
            invariant
                k <= 3,
                self.next_balls@.len() == 3,
                self.board == filled,
                self.state == old(self).state,
            decreases 3 - k,
        {
            self.next_balls[k].change_color(rng);
            k += 1;
        }
        SpawnOutcome::Placed(cells)
    }
    /// The first batch of a round: placed as every batch is.
    pub fn spawn_startup_balls(&mut self, rng: &mut StdRng, handles: &Vec<u64>) -> (outcome:
        SpawnOutcome)
        requires
            old(self).wf(),
            handles@.len() == 3,
        ensures
            final(self).wf(),
            final(self).board.tile_count == old(self).board.tile_count,
            final(self).board.min_balls_on_line == old(self).board.min_balls_on_line,
            final(self).board.score == old(self).board.score,
            final(self).board.active_ball == old(self).board.active_ball,
            fresh_cells(old(self).board@, outcome.cells()),
            colors_from(outcome.cells(), old(self).next_balls@),
            final(self).board@ == spec_placed(
                old(self).board@,
                outcome.cells(),
                handles@,
                outcome.cells().len() as int,
            ),
            outcome is BoardFull <==> !has_three_free(old(self).board@),
            match outcome {
                SpawnOutcome::Placed(cells) => cells@.len() == 3 && final(self).state == old(
                    self,
                ).state,
                SpawnOutcome::BoardFull(cells) => cells@.len() < 3 && final(self).board.is_full()
                    && final(self).state == GameState::GameOver && final(self).next_balls == old(
                    self,
                ).next_balls,
            },
    {
        self.spawn_batch(rng, handles)
    }

    /// Takes the armed ball to `to`, if the round goes on and a way leads
    /// there, and plays the turn out: the runs that the move completes are
    /// cleared and scored; if there is none, the upcoming batch is placed
    /// under the handles given and the runs that it completes are cleared
    /// and scored. A request that cannot be met changes nothing.
    pub fn attempt_move(&mut self, to: Coordinates, rng: &mut StdRng, handles: &Vec<u64>) -> (report:
        TurnReport)
        requires
            old(self).wf(),
            to.in_bounds(old(self).board.tile_count as int),
            handles@.len() == 3,
            old(self).board.score_has_room(),
        ensures
            final(self).wf(),
            final(self).board.tile_count == old(self).board.tile_count,
            final(self).board.min_balls_on_line == old(self).board.min_balls_on_line,
            spec_turn(old(self), final(self), &report, to, handles@),
    {
        if self.state != GameState::Playing {
            return TurnReport {
                path: None,
                ball: None,
                despawned: None,
                spawn: None,
                cascade: None,
                change_next: None,
            };
        }
        let ball = match self.board.active_ball {
            Some(from) => self.board.get(from),
            None => None,
        };
        let path = self.board.move_active_ball(&to);
        if path.is_none() {
            return TurnReport {
                path: None,
                ball: None,
                despawned: None,
                spawn: None,
                cascade: None,
                change_next: None,
            };
        }
        let ghost moved = self.board@;
        let despawned = self.board.despawn_balls_and_inc_score();
        let ghost runs = line_views(despawned.lines@);
        if despawned.lines.len() > 0 {
            return TurnReport {
                path,
                ball,
                despawned: Some(despawned),
                spawn: None,
                cascade: None,
                change_next: None,
            };
        }
        proof {
            assert(spec_score_upto(runs, 0) == 0);
            assert forall|c: Coordinates| !covered(runs, c) by {}
            assert(self.board@ =~= moved);
        }
        let outcome = self.spawn_batch(rng, handles);
        match outcome {
            SpawnOutcome::BoardFull(_) => TurnReport {
                path,
                ball,
                despawned: Some(despawned),
                spawn: Some(outcome),
                cascade: None,
                change_next: None,
            },
            SpawnOutcome::Placed(_) => {
                let cascade = self.board.despawn_balls_and_inc_score();
                TurnReport {
                    path,
                    ball,
                    despawned: Some(despawned),
                    spawn: Some(outcome),
                    cascade: Some(cascade),
                    change_next: Some(ChangeNextBallsEvent),
                }
            },
        }
    }

    /// A click on a cell of the board: on a ball it arms that ball, on an
    /// empty cell it asks the armed ball to move there. The report is that
    /// of the move, and `None` when the click fell on a ball.
    pub fn handle_mouse_clicks(&mut self, c: Coordinates, rng: &mut StdRng, handles: &Vec<u64>) -> (
        report: Option<TurnReport>)
        requires
            old(self).wf(),
            c.in_bounds(old(self).board.tile_count as int),
            handles@.len() == 3,
            old(self).board.score_has_room(),
        ensures
            final(self).wf(),
            final(self).board.tile_count == old(self).board.tile_count,
            final(self).board.min_balls_on_line == old(self).board.min_balls_on_line,
            report is None <==> old(self).board.ball_at(c) is Some,
            report is None ==> {
                &&& final(self).board.active_ball == (if old(self).state == GameState::Playing {
                    Some(c)
                } else {
                    old(self).board.active_ball
                })
                &&& final(self).board.tiles == old(self).board.tiles
                &&& final(self).board.score == old(self).board.score
                &&& final(self).next_balls == old(self).next_balls
                &&& final(self).state == old(self).state
            },
            report is Some ==> spec_turn(old(self), final(self), &report.unwrap(), c, handles@),
    {
        if self.board.get(c).is_some() {
            self.select(c);
            None
        } else {
            Some(self.attempt_move(c, rng, handles))
        }
    }

    /// Begins the round anew: an empty board of the same kind, score zero,
    /// rolled upcoming balls.
    pub fn restart(&mut self, rng: &mut StdRng)
        requires
            old(self).wf(),
        ensures
            final(self).wf(),
            final(self).state == GameState::Playing,
            final(self).board.tile_count == old(self).board.tile_count,
            final(self).board.min_balls_on_line == old(self).board.min_balls_on_line,
            final(self).board.active_ball is None,
            final(self).board.score == 0,
            forall|c: Coordinates|
                c.in_bounds(old(self).board.tile_count as int) ==> final(self).board.ball_at(c) is None,
    {
        let fresh = Game::new(self.board.tile_count, self.board.min_balls_on_line, rng);
        *self = fresh;
    }
}

/// The growth of the score for each run: two points for each of its cells.
pub fn score_events(lines: &Vec<Vec<Coordinates>>) -> (events: Vec<IncrementCurrentGameScore>)
    requires
        forall|i: int| 0 <= i < lines@.len() ==> 2 * (#[trigger] lines@[i])@.len() <= u32::MAX,
    ensures
        events@.len() == lines@.len(),
        forall|i: int| 0 <= i < lines@.len() ==> (#[trigger] events@[i]).0 == 2 * lines@[i]@.len(),
{
    let mut events: Vec<IncrementCurrentGameScore> = Vec::new();
    let mut i: usize = 0;
    while i < lines.len()
        invariant
            i <= lines@.len(),
            events@.len() == i,
            forall|k: int| 0 <= k < lines@.len() ==> 2 * (#[trigger] lines@[k])@.len() <= u32::MAX,
            forall|k: int| 0 <= k < i ==> (#[trigger] events@[k]).0 == 2 * lines@[k]@.len(),
        decreases lines@.len() - i,
    {
        assert(2 * lines@[i as int]@.len() <= u32::MAX);
        let gain: u32 = lines[i].len() as u32 * 2;
        events.push(IncrementCurrentGameScore(gain));
        i += 1;
    }
    events
}

} // verus!