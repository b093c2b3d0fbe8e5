use vstd::prelude::*;

use crate::ball::BallColor;
use crate::coordinates::Coordinates;
use crate::lines::lines_on_board;
use crate::matcher::{
    lemma_run_tail_extent, line_colors, spec_cut, spec_run_bounds, spec_run_tail, spec_runs_in,
    spec_runs_on_line, Tiles,
};

verus! {

/// What the first `k` of the runs are worth: two points for each cell of
/// each run.
pub open spec fn spec_score_upto(runs: Seq<Seq<Coordinates>>, k: int) -> int
    decreases k,
{
    if k <= 0 {
        0
    } else {
        spec_score_upto(runs, k - 1) + 2 * runs[k - 1].len()
    }
}

/// What the runs are worth together. A cell that lies in two runs counts in
/// both.
pub open spec fn spec_runs_score(runs: Seq<Seq<Coordinates>>) -> int {
    spec_score_upto(runs, runs.len() as int)
}

/// No turn on a board of side `count` gains more than this.
pub open spec fn spec_gain_limit(count: int) -> int {
    16 * count * count
}

/// The worth of the runs grows with their number.
pub proof fn lemma_score_grows(runs: Seq<Seq<Coordinates>>, i: int, k: int)
    requires
        0 <= i <= k,
    ensures
        0 <= spec_score_upto(runs, i) <= spec_score_upto(runs, k),
    decreases k,
{
    if i < k {
        lemma_score_grows(runs, i, k - 1);
    } else if k > 0 {
        lemma_score_grows(runs, i - 1, k - 1);
    }
}

proof fn lemma_score_prefix(a: Seq<Seq<Coordinates>>, b: Seq<Seq<Coordinates>>, k: int)
    requires
        0 <= k <= a.len(),
    ensures
        spec_score_upto(a + b, k) == spec_score_upto(a, k),
    decreases k,
{
    if k > 0 {
        lemma_score_prefix(a, b, k - 1);
        assert((a + b)[k - 1] == a[k - 1]);
    }
}

proof fn lemma_score_suffix(a: Seq<Seq<Coordinates>>, b: Seq<Seq<Coordinates>>, k: int)
    requires
        0 <= k <= b.len(),
    ensures
        spec_score_upto(a + b, a.len() + k) == spec_runs_score(a) + spec_score_upto(b, k),
    decreases k,
{
    if k > 0 {
        lemma_score_suffix(a, b, k - 1);
        assert((a + b)[a.len() + k - 1] == b[k - 1]);
    } else {
        lemma_score_prefix(a, b, a.len() as int);
    }
}

/// Runs taken together are worth what they are worth apart.
pub proof fn lemma_score_concat(a: Seq<Seq<Coordinates>>, b: Seq<Seq<Coordinates>>)
    ensures
        spec_runs_score(a + b) == spec_runs_score(a) + spec_runs_score(b),
{
    lemma_score_suffix(a, b, b.len() as int);
}

proof fn lemma_line_score_bound(
    line: Seq<Coordinates>,
    colors: Seq<Option<BallColor>>,
    start: int,
    min: int,
)
    requires
        line.len() == colors.len(),
        0 <= start <= colors.len(),
    ensures
        spec_runs_score(spec_cut(line, spec_run_bounds(colors, start, min))) <= 2 * (colors.len()
            - start),
    decreases colors.len() - start,
{
    let bounds = spec_run_bounds(colors, start, min);
    if start >= colors.len() {
        assert(spec_cut(line, bounds) =~= Seq::empty());
    } else if colors[start] is None {
        lemma_line_score_bound(line, colors, start + 1, min);
    } else {
        lemma_run_tail_extent(colors, start);
        let end = start + 1 + spec_run_tail(colors, start);
        let rest = spec_run_bounds(colors, end, min);
        lemma_line_score_bound(line, colors, end, min);
        if end - start >= min {
            let run = seq![line.subrange(start, end)];
            assert(spec_cut(line, bounds) =~= run + spec_cut(line, rest));
            lemma_score_concat(run, spec_cut(line, rest));
            assert(spec_score_upto(run, 0) == 0);
            assert(spec_score_upto(run, 1) == 2 * run[0].len());
        }
    }
}

/// The runs along `k` lines of a board of side `count` are worth no more
/// than two points for each cell of each line.
pub proof fn lemma_runs_in_bound(
    tiles: Tiles,
    min: int,
    lines: Seq<Seq<Coordinates>>,
    k: int,
    count: int,
)
    requires
        lines_on_board(lines, count),
        0 <= k <= lines.len(),
        0 <= count,
    ensures
        spec_runs_score(spec_runs_in(tiles, min, lines, k)) <= 2 * count * k,
    decreases k,
{
    if k > 0 {
        lemma_runs_in_bound(tiles, min, lines, k - 1, count);
        let line = lines[k - 1];
        let colors = line_colors(tiles, line);
        lemma_line_score_bound(line, colors, 0, min);
        lemma_score_concat(
            spec_runs_in(tiles, min, lines, k - 1),
            spec_runs_on_line(line, colors, min),
        );
        assert(line.len() <= count);
        assert(2 * count * (k - 1) + 2 * count == 2 * count * k) by (nonlinear_arith);
    }
}

} // verus!
