use rand::rngs::StdRng;
use vstd::prelude::*;

use crate::ball::{BallColor, BallEntity};
use crate::coordinates::Coordinates;
use crate::matcher::Tiles;

verus! {

/// One of the upcoming balls.
#[derive(Debug, Clone, Copy, PartialEq, Eq, Structural)]
pub struct NextBall {
    pub color: BallColor,
}

impl NextBall {
    /// An upcoming ball of a rolled color: the color that stands at the
    /// place of the palette which the generator has drawn.
    pub fn new(rng: &mut StdRng) -> (ball: NextBall)
        ensures
            exists|i: int| 0 <= i < 7 && ball.color == BallColor::spec_from_index(i),
    {
        Self { color: BallColor::new(rng) }
    }

    /// Rolls the color anew: it becomes the color that stands at the place
    /// of the palette which the generator has drawn, whatever it was.
    pub fn change_color(&mut self, rng: &mut StdRng)
        ensures
            exists|i: int| 0 <= i < 7 && final(self).color == BallColor::spec_from_index(i),
    {
        self.color = BallColor::new(rng)
    }
}

/// How a batch of balls came onto the board: all of it, or only the cells
/// listed, after which no cell was left.
#[derive(Debug)]
pub enum SpawnOutcome {
    Placed(Vec<(Coordinates, BallColor)>),
    BoardFull(Vec<(Coordinates, BallColor)>),
}

impl SpawnOutcome {
    /// The cells that received a ball, with its color, in the order of
    /// placement.
    pub open spec fn cells(&self) -> Seq<(Coordinates, BallColor)> {
        match self {
            SpawnOutcome::Placed(cells) => cells@,
            SpawnOutcome::BoardFull(cells) => cells@,
        }
    }
}

/// The ball that the `k`-th placement puts down.
pub open spec fn spec_spawned_ball(
    cells: Seq<(Coordinates, BallColor)>,
    handles: Seq<u64>,
    k: int,
) -> BallEntity {
    BallEntity { color: cells[k].1, entity: handles[k] }
}

/// The grid after the first `k` placements.
pub open spec fn spec_placed(
    tiles: Tiles,
    cells: Seq<(Coordinates, BallColor)>,
    handles: Seq<u64>,
    k: int,
) -> Tiles
    decreases k,
{
    if k <= 0 {
        tiles
    } else {
        spec_placed(tiles, cells, handles, k - 1).insert(
            cells[k - 1].0,
            Some(spec_spawned_ball(cells, handles, k - 1)),
        )
    }
}

/// Each of the cells is an empty cell of the grid, and no two are the same.
pub open spec fn fresh_cells(tiles: Tiles, cells: Seq<(Coordinates, BallColor)>) -> bool {
    &&& forall|i: int|
        0 <= i < cells.len() ==> tiles.dom().contains((#[trigger] cells[i]).0)
            && tiles[cells[i].0] is None
    &&& forall|i: int, j: int|
        0 <= i < j < cells.len() ==> (#[trigger] cells[i]).0 != (#[trigger] cells[j]).0
}

/// The grid has three empty cells.
pub open spec fn has_three_free(tiles: Tiles) -> bool {
    exists|a: Coordinates, b: Coordinates, c: Coordinates|
        #![trigger tiles[a], tiles[b], tiles[c]]
        a != b && a != c && b != c && tiles.dom().contains(a) && tiles.dom().contains(b)
            && tiles.dom().contains(c) && tiles[a] is None && tiles[b] is None && tiles[c] is None
}

/// The colors of the first `k` placements are the first `k` upcoming ones.
pub open spec fn colors_from(
    cells: Seq<(Coordinates, BallColor)>,
    next_balls: Seq<NextBall>,
) -> bool {
    forall|i: int| 0 <= i < cells.len() ==> (#[trigger] cells[i]).1 == next_balls[i].color
}

/// Placements touch no cell but their own.
pub proof fn lemma_placed_elsewhere(
    tiles: Tiles,
    cells: Seq<(Coordinates, BallColor)>,
    handles: Seq<u64>,
    k: int,
    c: Coordinates,
)
    requires
        0 <= k <= cells.len(),
        forall|i: int| 0 <= i < k ==> (#[trigger] cells[i]).0 != c,
    ensures
        spec_placed(tiles, cells, handles, k).dom().contains(c) == tiles.dom().contains(c),
        spec_placed(tiles, cells, handles, k)[c] == tiles[c],
    decreases k,
{
    if k > 0 {
        lemma_placed_elsewhere(tiles, cells, handles, k - 1, c);
        assert(cells[k - 1].0 != c);
    }
}

/// Placements on cells of the grid leave it with the same cells, and what
/// was on the board before is still there: no ball is put onto another.
pub proof fn lemma_placed_keeps(
    tiles: Tiles,
    cells: Seq<(Coordinates, BallColor)>,
    handles: Seq<u64>,
    k: int,
)
    requires
        0 <= k <= cells.len(),
        fresh_cells(tiles, cells),
    ensures
        spec_placed(tiles, cells, handles, k).dom() == tiles.dom(),
        forall|c: Coordinates|
            tiles.dom().contains(c) && tiles[c] is Some ==> #[trigger] spec_placed(
                tiles,
                cells,
                handles,
                k,
            )[c] == tiles[c],
    decreases k,
{
    if k > 0 {
        lemma_placed_keeps(tiles, cells, handles, k - 1);
        let before = spec_placed(tiles, cells, handles, k - 1);
        let after = spec_placed(tiles, cells, handles, k);
        assert(tiles.dom().contains(cells[k - 1].0));
        assert(after.dom() =~= tiles.dom());
    }
}

/// What is placed does not depend on what is listed behind it.
pub proof fn lemma_placed_prefix(
    tiles: Tiles,
    cells: Seq<(Coordinates, BallColor)>,
    longer: Seq<(Coordinates, BallColor)>,
    handles: Seq<u64>,
    k: int,
)
    requires
        0 <= k <= cells.len() <= longer.len(),
        forall|i: int| 0 <= i < cells.len() ==> cells[i] == longer[i],
    ensures
        spec_placed(tiles, cells, handles, k) == spec_placed(tiles, longer, handles, k),
    decreases k,
{
    if k > 0 {
        lemma_placed_prefix(tiles, cells, longer, handles, k - 1);
    }
}

/// A board that fewer than three placements have filled had fewer than
/// three empty cells.
pub proof fn lemma_filled_early(
    tiles: Tiles,
    cells: Seq<(Coordinates, BallColor)>,
    handles: Seq<u64>,
)
    requires
        cells.len() < 3,
        fresh_cells(tiles, cells),
        forall|c: Coordinates|
            tiles.dom().contains(c) ==> #[trigger] spec_placed(
                tiles,
                cells,
                handles,
                cells.len() as int,
            )[c] is Some,
    ensures
        !has_three_free(tiles),
{
    if has_three_free(tiles) {
        let (a, b, c) = choose|a: Coordinates, b: Coordinates, c: Coordinates|
            #![trigger tiles[a], tiles[b], tiles[c]]
            a != b && a != c && b != c && tiles.dom().contains(a) && tiles.dom().contains(b)
                && tiles.dom().contains(c) && tiles[a] is None && tiles[b] is None && tiles[c] is None;
        let k = cells.len() as int;
        let x = if forall|i: int| 0 <= i < k ==> (#[trigger] cells[i]).0 != a {
            a
        } else if forall|i: int| 0 <= i < k ==> (#[trigger] cells[i]).0 != b {
            b
        } else {
            c
        };
        assert(forall|i: int| 0 <= i < k ==> (#[trigger] cells[i]).0 != x);
        lemma_placed_elsewhere(tiles, cells, handles, k, x);
        assert(spec_placed(tiles, cells, handles, k)[x] is Some);
    }
}

/// Three placements on fresh cells show three empty cells.
pub proof fn lemma_three_placed(tiles: Tiles, cells: Seq<(Coordinates, BallColor)>)
    requires
        cells.len() == 3,
        fresh_cells(tiles, cells),
    ensures
        has_three_free(tiles),
{
    let a = cells[0].0;
    let b = cells[1].0;
    let c = cells[2].0;
    assert(a != b && a != c && b != c);
    assert(tiles[a] is None && tiles[b] is None && tiles[c] is None);
}

} // verus!
