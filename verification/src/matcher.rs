use vstd::prelude::*;

use crate::ball::{BallColor, BallEntity};
use crate::board::Board;
use crate::coordinates::Coordinates;
use crate::lines::{line_views, lines_on_board, spec_lines};
use crate::score::{lemma_runs_in_bound, spec_gain_limit, spec_runs_score};

verus! {

/// The occupancy of a grid: what stands on each of its cells.
pub type Tiles = Map<Coordinates, Option<BallEntity>>;

/// The color of what stands on a cell, `None` for an empty one.
pub open spec fn color_of(tile: Option<BallEntity>) -> Option<BallColor> {
    match tile {
        Some(ball) => Some(ball.color),
        None => None,
    }
}

/// The colors met along a line, `None` where a cell is empty.
pub open spec fn line_colors(tiles: Tiles, line: Seq<Coordinates>) -> Seq<Option<BallColor>> {
    Seq::new(line.len(), |i: int| color_of(tiles[line[i]]))
}

/// How many places right behind `start` hold what `start` holds.
pub open spec fn spec_run_tail(colors: Seq<Option<BallColor>>, start: int) -> nat
    decreases colors.len() - start,
{
    if 0 <= start && start + 1 < colors.len() && colors[start + 1] == colors[start] {
        1 + spec_run_tail(colors, start + 1)
    } else {
        0
    }
}

/// How many places from `start` on hold what `start` holds, `start` itself
/// counted.
pub open spec fn spec_run_len(colors: Seq<Option<BallColor>>, start: int) -> nat {
    1 + spec_run_tail(colors, start)
}

/// The runs of one color that begin at `start` or later and have at least
/// `min` cells, each as the place where it begins and the place behind its
/// end, in the order of the line. `start` is a place where a run begins or
/// an empty one.
pub open spec fn spec_run_bounds(colors: Seq<Option<BallColor>>, start: int, min: int) -> Seq<
    (int, int),
>
    decreases (if start <= colors.len() { colors.len() - start } else { 0 }),
{
    if start < 0 || start >= colors.len() {
        Seq::empty()
    } else if colors[start] is None {
        spec_run_bounds(colors, start + 1, min)
    } else {
        let end = start + 1 + spec_run_tail(colors, start);
        let rest = spec_run_bounds(colors, end, min);
        if end - start >= min {
            seq![(start, end)] + rest
        } else {
            rest
        }
    }
}

/// The cells between the bounds given, one sequence for each pair.
pub open spec fn spec_cut(line: Seq<Coordinates>, bounds: Seq<(int, int)>) -> Seq<
    Seq<Coordinates>,
> {
    Seq::new(bounds.len(), |k: int| line.subrange(bounds[k].0, bounds[k].1))
}

/// The runs of at least `min` cells along one line.
pub open spec fn spec_runs_on_line(
    line: Seq<Coordinates>,
    colors: Seq<Option<BallColor>>,
    min: int,
) -> Seq<Seq<Coordinates>> {
    spec_cut(line, spec_run_bounds(colors, 0, min))
}

/// The runs along the first `k` of the lines, line after line.
pub open spec fn spec_runs_in(tiles: Tiles, min: int, lines: Seq<Seq<Coordinates>>, k: int) -> Seq<
    Seq<Coordinates>,
>
    decreases k,
{
    if k <= 0 {
        Seq::empty()
    } else {
        spec_runs_in(tiles, min, lines, k - 1) + spec_runs_on_line(
            lines[k - 1],
            line_colors(tiles, lines[k - 1]),
            min,
        )
    }
}

/// Every run that is long enough to be cleared on a grid of side `count`:
/// the runs of each line in the order of `spec_lines`. A cell that lies in
/// runs of two lines stands in both.
pub open spec fn spec_matches_of(tiles: Tiles, count: int, min: int) -> Seq<Seq<Coordinates>> {
    let lines = spec_lines(count, min);
    spec_runs_in(tiles, min, lines, lines.len() as int)
}

/// A run of one color that fills the places from `start` up to `end`.
pub proof fn lemma_run_len(colors: Seq<Option<BallColor>>, start: int, end: int)
    requires
        0 <= start < end <= colors.len(),
        forall|k: int| start <= k < end ==> colors[k] == colors[start],
        end == colors.len() || colors[end] != colors[start],
    ensures
        start + spec_run_len(colors, start) == end,
    decreases end - start,
{
    if start + 1 < end {
        assert(colors[start + 1] == colors[start]);
        lemma_run_len(colors, start + 1, end);
    }
}

/// The places from `start` up to `end` hold one color, and the places next
/// to them on either side, where there are any, do not hold it.
pub open spec fn is_run(colors: Seq<Option<BallColor>>, start: int, end: int) -> bool {
    &&& 0 <= start < end <= colors.len()
    &&& colors[start] is Some
    &&& forall|k: int| start <= k < end ==> colors[k] == colors[start]
    &&& start == 0 || colors[start - 1] != colors[start]
    &&& end == colors.len() || colors[end] != colors[start]
}

/// No run of one color lies across `start`.
pub open spec fn is_boundary(colors: Seq<Option<BallColor>>, start: int) -> bool {
    start <= 0 || start >= colors.len() || colors[start] is None || colors[start - 1]
        != colors[start]
}

/// How far the color of `start` goes on.
pub proof fn lemma_run_tail_extent(colors: Seq<Option<BallColor>>, start: int)
    requires
        0 <= start < colors.len(),
    ensures
        start + 1 + spec_run_tail(colors, start) <= colors.len(),
        forall|k: int|
            start <= k < start + 1 + spec_run_tail(colors, start) ==> colors[k] == colors[start],
        start + 1 + spec_run_tail(colors, start) == colors.len() || colors[start + 1
            + spec_run_tail(colors, start)] != colors[start],
    decreases colors.len() - start,
{
    if start + 1 < colors.len() && colors[start + 1] == colors[start] {
        lemma_run_tail_extent(colors, start + 1);
    }
}

/// What is found from a boundary on: runs that are long enough, in the
/// order of the line and apart from each other, and every such run that
/// begins at the boundary or behind it.
pub proof fn lemma_run_bounds(colors: Seq<Option<BallColor>>, start: int, min: int)
    requires
        0 <= start <= colors.len(),
        is_boundary(colors, start),
    ensures
        forall|k: int|
            0 <= k < spec_run_bounds(colors, start, min).len() ==> {
                let run = #[trigger] spec_run_bounds(colors, start, min)[k];
                is_run(colors, run.0, run.1) && run.1 - run.0 >= min && run.0 >= start
            },
        forall|k: int, l: int|
            0 <= k < l < spec_run_bounds(colors, start, min).len() ==> (#[trigger] spec_run_bounds(
                colors,
                start,
                min,
            )[k]).1 <= (#[trigger] spec_run_bounds(colors, start, min)[l]).0,
        forall|s: int, e: int|
            #[trigger] is_run(colors, s, e) && s >= start && e - s >= min ==> spec_run_bounds(
                colors,
                start,
                min,
            ).contains((s, e)),
    decreases colors.len() - start,
{
    let found = spec_run_bounds(colors, start, min);
    if start >= colors.len() {
    } else if colors[start] is None {
        lemma_run_bounds(colors, start + 1, min);
        assert(found == spec_run_bounds(colors, start + 1, min));
    } else {
        lemma_run_tail_extent(colors, start);
        let end = start + 1 + spec_run_tail(colors, start);
        let rest = spec_run_bounds(colors, end, min);
        lemma_run_bounds(colors, end, min);
        assert(is_run(colors, start, end));
        if end - start >= min {
            assert(found == seq![(start, end)] + rest);
            assert forall|k: int| 0 <= k < found.len() implies {
                let run = #[trigger] found[k];
                is_run(colors, run.0, run.1) && run.1 - run.0 >= min && run.0 >= start
            } by {
                if k > 0 {
                    assert(found[k] == rest[k - 1]);
                } else {
                    assert(found[0] == (start, end));
                }
            }
            assert forall|k: int, l: int| 0 <= k < l < found.len() implies (#[trigger] found[k]).1 <= (
            #[trigger] found[l]).0 by {
                assert(found[l] == rest[l - 1]);
                if k > 0 {
                    assert(found[k] == rest[k - 1]);
                } else {
                    assert(found[0] == (start, end));
                }
            }
        } else {
            assert(found == rest);
        }
        assert forall|s: int, e: int| #[trigger]
            is_run(colors, s, e) && s >= start && e - s >= min implies found.contains((s, e)) by {
            if s == start {
                if e < end {
                    assert(colors[e] == colors[start]);
                }
                if e > end {
                    assert(colors[end] == colors[s]);
                }
                assert(found[0] == (s, e));
            } else if s < end {
                assert(colors[s - 1] == colors[start]);
                assert(colors[s] == colors[start]);
            } else {
                assert(rest.contains((s, e)));
                let k = choose|k: int| 0 <= k < rest.len() && rest[k] == (s, e);
                if end - start >= min {
                    assert(found[k + 1] == (s, e));
                } else {
                    assert(found[k] == (s, e));
                }
            }
        }
    }
}

/// Along a line, a run of one color that has at least `min` cells is found,
/// and found once, with all its cells; whatever is found is such a run, so
/// nothing shorter is.
pub proof fn lemma_run_detection(line: Seq<Coordinates>, colors: Seq<Option<BallColor>>, min: int)
    requires
        line.len() == colors.len(),
    ensures
        forall|k: int|
            0 <= k < spec_run_bounds(colors, 0, min).len() ==> {
                let run = #[trigger] spec_run_bounds(colors, 0, min)[k];
                &&& is_run(colors, run.0, run.1)
                &&& run.1 - run.0 >= min
                &&& spec_runs_on_line(line, colors, min)[k] == line.subrange(run.0, run.1)
                &&& spec_runs_on_line(line, colors, min)[k].len() == run.1 - run.0
            },
        forall|s: int, e: int|
            #[trigger] is_run(colors, s, e) && e - s >= min ==> exists|k: int|
                0 <= k < spec_run_bounds(colors, 0, min).len() && #[trigger] spec_run_bounds(
                    colors,
                    0,
                    min,
                )[k] == (s, e),
        forall|k: int, l: int|
            0 <= k < l < spec_run_bounds(colors, 0, min).len() ==> #[trigger] spec_run_bounds(
                colors,
                0,
                min,
            )[k] != #[trigger] spec_run_bounds(colors, 0, min)[l],
        spec_runs_on_line(line, colors, min).len() == spec_run_bounds(colors, 0, min).len(),
{
    lemma_run_bounds(colors, 0, min);
    let found = spec_run_bounds(colors, 0, min);
    assert forall|k: int, l: int| 0 <= k < l < found.len() implies #[trigger] found[k]
        != #[trigger] found[l] by {
        assert(is_run(colors, found[k].0, found[k].1));
        assert(found[k].1 <= found[l].0);
    }
}

/// `run` is one of the runs found along the `k`-th of the lines.
pub open spec fn is_run_of_line(
    tiles: Tiles,
    min: int,
    lines: Seq<Seq<Coordinates>>,
    k: int,
    run: Seq<Coordinates>,
) -> bool {
    0 <= k < lines.len() && spec_runs_on_line(lines[k], line_colors(tiles, lines[k]), min).contains(
        run,
    )
}

/// What is found along the first `k` lines is what is found along each of
/// them, and nothing else.
pub proof fn lemma_runs_in_lines(tiles: Tiles, min: int, lines: Seq<Seq<Coordinates>>, k: int)
    requires
        0 <= k <= lines.len(),
    ensures
        forall|run: Seq<Coordinates>|
            #![trigger spec_runs_in(tiles, min, lines, k).contains(run)]
            spec_runs_in(tiles, min, lines, k).contains(run) <==> exists|l: int|
                0 <= l < k && #[trigger] is_run_of_line(tiles, min, lines, l, run),
    decreases k,
{
    let all = spec_runs_in(tiles, min, lines, k);
    if k > 0 {
        lemma_runs_in_lines(tiles, min, lines, k - 1);
        let before = spec_runs_in(tiles, min, lines, k - 1);
        let here = spec_runs_on_line(lines[k - 1], line_colors(tiles, lines[k - 1]), min);
        assert(all == before + here);
        assert forall|run: Seq<Coordinates>|
            #![trigger all.contains(run)]
            all.contains(run) <==> exists|l: int|
                0 <= l < k && #[trigger] is_run_of_line(tiles, min, lines, l, run) by {
            if all.contains(run) {
                let i = choose|i: int| 0 <= i < all.len() && all[i] == run;
                if i < before.len() {
                    assert(before[i] == run);
                    assert(before.contains(run));
                    let l = choose|l: int|
                        0 <= l < k - 1 && #[trigger] is_run_of_line(tiles, min, lines, l, run);
                    assert(is_run_of_line(tiles, min, lines, l, run));
                } else {
                    assert(here[i - before.len()] == run);
                    assert(is_run_of_line(tiles, min, lines, k - 1, run));
                }
            }
            if exists|l: int| 0 <= l < k && #[trigger] is_run_of_line(tiles, min, lines, l, run) {
                let l = choose|l: int|
                    0 <= l < k && #[trigger] is_run_of_line(tiles, min, lines, l, run);
                if l < k - 1 {
                    assert(before.contains(run));
                    let i = choose|i: int| 0 <= i < before.len() && before[i] == run;
                    assert(all[i] == run);
                } else {
                    let i = choose|i: int| 0 <= i < here.len() && here[i] == run;
                    assert(all[before.len() + i] == run);
                }
            }
        }
    }
}

/// A run is among the matches of a grid exactly when it is found along one
/// of the grid's lines.
pub proof fn lemma_matches_are_line_runs(tiles: Tiles, count: int, min: int)
    ensures
        forall|run: Seq<Coordinates>|
            #![trigger spec_matches_of(tiles, count, min).contains(run)]
            spec_matches_of(tiles, count, min).contains(run) <==> exists|l: int|
                #[trigger] is_run_of_line(tiles, min, spec_lines(count, min), l, run),
{
    let lines = spec_lines(count, min);
    lemma_runs_in_lines(tiles, min, lines, lines.len() as int);
}

fn copy_range(line: &Vec<Coordinates>, start: usize, end: usize) -> (run: Vec<Coordinates>)
    requires
        start <= end <= line@.len(),
    ensures
        run@ == line@.subrange(start as int, end as int),
{
    let mut run: Vec<Coordinates> = Vec::new();
    let mut i: usize = start;
    while i < end
        invariant
            start <= i <= end <= line@.len(),
            run@ == line@.subrange(start as int, i as int),
        decreases end - i,
    {
        run.push(line[i]);
        assert(run@ =~= line@.subrange(start as int, i + 1));
        i += 1;
    }
    run
}

/// Every cell of every run lies on a board of side `count`.
pub open spec fn cells_on_board(runs: Seq<Seq<Coordinates>>, count: int) -> bool {
    forall|i: int, j: int|
        0 <= i < runs.len() && 0 <= j < runs[i].len() ==> (#[trigger] runs[i][j]).in_bounds(count)
}

fn push_run(
    line: &Vec<Coordinates>,
    start: usize,
    end: usize,
    result: &mut Vec<Vec<Coordinates>>,
    Ghost(count): Ghost<int>,
)
    requires
        start <= end <= line@.len(),
        forall|j: int| 0 <= j < line@.len() ==> (#[trigger] line@[j]).in_bounds(count),
    ensures
        line_views(final(result)@) == line_views(old(result)@).push(
            line@.subrange(start as int, end as int),
        ),
        cells_on_board(line_views(old(result)@), count) ==> cells_on_board(
            line_views(final(result)@),
            count,
        ),
{
    let run = copy_range(line, start, end);
    let ghost before = line_views(result@);
    result.push(run);
    proof {
        let after = line_views(result@);
        assert(after =~= before.push(line@.subrange(start as int, end as int)));
        assert forall|i: int, j: int|
            cells_on_board(before, count) && 0 <= i < after.len() && 0 <= j < after[i].len() implies (
        #[trigger] after[i][j]).in_bounds(count) by {
            if i < before.len() {
                assert(after[i] == before[i]);
                assert(before[i][j].in_bounds(count));
            } else {
                assert(after[i][j] == line@[start + j]);
            }
        }
    }
}

impl Board {
    /// The runs on this board that are long enough to be cleared.
    pub open spec fn spec_matches(&self) -> Seq<Seq<Coordinates>> {
        spec_matches_of(self@, self.tile_count as int, self.min_balls_on_line as int)
    }

    /// Appends to `result` the runs along `line`, in the order of the line.
    pub fn collect_runs(&self, line: &Vec<Coordinates>, result: &mut Vec<Vec<Coordinates>>)
        requires
            self.wf(),
            forall|j: int|
                0 <= j < line@.len() ==> (#[trigger] line@[j]).in_bounds(self.tile_count as int),
        ensures
            cells_on_board(line_views(old(result)@), self.tile_count as int) ==> cells_on_board(
                line_views(final(result)@),
                self.tile_count as int,
            ),
            line_views(final(result)@) == line_views(old(result)@) + spec_runs_on_line(
                line@,
                line_colors(self@, line@),
                self.min_balls_on_line as int,
            ),
    {
        let ghost colors = line_colors(self@, line@);
        let ghost min = self.min_balls_on_line as int;
        let ghost base = line_views(result@);
        let ghost mut emitted: Seq<(int, int)> = Seq::empty();
        let mut start: usize = 0;
        let mut last_color: Option<BallColor> = None;
        let mut i: usize = 0;
        assert(line_views(result@) =~= base + spec_cut(line@, emitted));
        while i < line.len()
            invariant
                self.wf(),
                forall|j: int|
                    0 <= j < line@.len() ==> (#[trigger] line@[j]).in_bounds(
                        self.tile_count as int,
                    ),
                colors == line_colors(self@, line@),
                min == self.min_balls_on_line,
                start <= i <= line@.len(),
                spec_run_bounds(colors, 0, min) == emitted + spec_run_bounds(
                    colors,
                    start as int,
                    min,
                ),
                line_views(result@) == base + spec_cut(line@, emitted),
                cells_on_board(base, self.tile_count as int) ==> cells_on_board(
                    line_views(result@),
                    self.tile_count as int,
                ),
                start < i ==> colors[start as int] is Some && last_color == colors[start as int]
                    && forall|k: int| start <= k < i ==> colors[k] == colors[start as int],
                start == i ==> last_color is None,
            decreases line@.len() - i,
        {
            let coord = line[i];
            let tile = self.tiles[coord.0 as usize][coord.1 as usize];
            assert(colors[i as int] == color_of(self@[coord]));
            assert(self@[coord] == self.ball_at(coord));
            let ghost tail = spec_run_bounds(colors, i as int, min);
            match tile {
                Some(ball) => {
                    let differs = match last_color {
                        Some(color) => color != ball.color,
                        None => false,
                    };
                    if differs {
                        proof {
                            lemma_run_len(colors, start as int, i as int);
                        }
                        if i - start >= self.min_balls_on_line {
                            push_run(line, start, i, result, Ghost(self.tile_count as int));
                            proof {
                                assert(spec_cut(line@, emitted.push((start as int, i as int)))
                                    =~= spec_cut(line@, emitted).push(
                                    line@.subrange(start as int, i as int),
                                ));
                                assert(emitted + (seq![(start as int, i as int)] + tail)
                                    =~= emitted.push((start as int, i as int)) + tail);
                                emitted = emitted.push((start as int, i as int));
                            }
                        }
                        start = i;
                    }
                    last_color = Some(ball.color);
                },
                None => {
                    let ghost next = spec_run_bounds(colors, i + 1, min);
                    assert(tail == next);
                    if start < i {
                        proof {
                            lemma_run_len(colors, start as int, i as int);
                        }
                        if i - start >= self.min_balls_on_line {
                            push_run(line, start, i, result, Ghost(self.tile_count as int));
                            proof {
                                assert(spec_cut(line@, emitted.push((start as int, i as int)))
                                    =~= spec_cut(line@, emitted).push(
                                    line@.subrange(start as int, i as int),
                                ));
                                assert(emitted + (seq![(start as int, i as int)] + tail)
                                    =~= emitted.push((start as int, i as int)) + tail);
                                emitted = emitted.push((start as int, i as int));
                            }
                        }
                    }
                    last_color = None;
                    start = i + 1;
                },
            }
            i += 1;
        }
        let ghost tail = spec_run_bounds(colors, i as int, min);
        assert(tail =~= Seq::empty());
        if start < i {
            proof {
                lemma_run_len(colors, start as int, i as int);
            }
            if i - start >= self.min_balls_on_line {
                push_run(line, start, i, result, Ghost(self.tile_count as int));
                proof {
                    assert(spec_cut(line@, emitted.push((start as int, i as int))) =~= spec_cut(
                        line@,
                        emitted,
                    ).push(line@.subrange(start as int, i as int)));
                    assert(emitted + (seq![(start as int, i as int)] + tail) =~= emitted.push(
                        (start as int, i as int),
                    ) + tail);
                    emitted = emitted.push((start as int, i as int));
                }
            }
        }
        assert(spec_run_bounds(colors, 0, min) =~= emitted);
    }

    /// The runs that are to be cleared: see `spec_matches`.
    pub fn get_balls_for_despawn(&self) -> (result: Vec<Vec<Coordinates>>)
        requires
            self.wf(),
        ensures
            line_views(result@) == self.spec_matches(),
            cells_on_board(line_views(result@), self.tile_count as int),
            spec_runs_score(self.spec_matches()) <= spec_gain_limit(self.tile_count as int),
    {
        let lines = self.get_lines();
        proof {
            let n = self.tile_count as int;
            lemma_runs_in_bound(
                self@,
                self.min_balls_on_line as int,
                line_views(lines@),
                lines@.len() as int,
                n,
            );
            assert(2 * n * lines@.len() <= 16 * n * n) by (nonlinear_arith)
                requires
                    0 <= lines@.len() <= 8 * n,
                    0 <= n,
            ;
        }
        let mut result: Vec<Vec<Coordinates>> = Vec::new();
        let mut k: usize = 0;
        assert(line_views(result@) =~= Seq::empty());
        while k < lines.len()
            invariant
                self.wf(),
                k <= lines@.len(),
                lines_on_board(line_views(lines@), self.tile_count as int),
                cells_on_board(line_views(result@), self.tile_count as int),
                line_views(result@) == spec_runs_in(
                    self@,
                    self.min_balls_on_line as int,
                    line_views(lines@),
                    k as int,
                ),
            decreases lines@.len() - k,
        {
            assert(line_views(lines@)[k as int] == lines@[k as int]@);
            self.collect_runs(&lines[k], &mut result);
            k += 1;
        }
        result
    }
}

} // verus!
