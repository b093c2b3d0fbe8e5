use vstd::prelude::*;

use crate::board::Board;
use crate::coordinates::Coordinates;

verus! {

/// The diagonal on which the second index exceeds the first by `d`, from
/// its end with the smaller indices to the other.
pub open spec fn spec_diagonal(count: int, d: int) -> Seq<Coordinates> {
    let lo = if d < 0 { -d } else { 0 };
    let hi = if d > 0 { count - d } else { count };
    Seq::new(
        if hi > lo { (hi - lo) as nat } else { 0 },
        |i: int| Coordinates((lo + i) as u8, (d + lo + i) as u8),
    )
}

/// The diagonal on which the two indices add up to `d`, from its end with
/// the smaller first index to the other.
pub open spec fn spec_rev_diagonal(count: int, d: int) -> Seq<Coordinates> {
    let lo = if d >= count { d - count + 1 } else { 0 };
    let hi = if d + 1 < count { d + 1 } else { count };
    Seq::new(
        if hi > lo { (hi - lo) as nat } else { 0 },
        |i: int| Coordinates((lo + i) as u8, (d - lo - i) as u8),
    )
}

/// The cells whose first index is `x`.
pub open spec fn spec_vertical(count: int, x: int) -> Seq<Coordinates> {
    Seq::new(count as nat, |i: int| Coordinates(x as u8, i as u8))
}

/// The cells whose second index is `y`.
pub open spec fn spec_horizontal(count: int, y: int) -> Seq<Coordinates> {
    Seq::new(count as nat, |i: int| Coordinates(i as u8, y as u8))
}

/// A diagonal counts only when it can hold a run.
pub open spec fn spec_kept(line: Seq<Coordinates>, min: int) -> Seq<Seq<Coordinates>> {
    if line.len() >= min {
        seq![line]
    } else {
        Seq::empty()
    }
}

/// The diagonals of both directions with offsets from `-count` up to, not
/// including, `d`, each kept if it is long enough.
pub open spec fn spec_diagonal_lines(count: int, min: int, d: int) -> Seq<Seq<Coordinates>>
    decreases d + count,
{
    if d <= -count {
        Seq::empty()
    } else {
        spec_diagonal_lines(count, min, d - 1) + spec_kept(spec_diagonal(count, d - 1), min)
            + spec_kept(spec_rev_diagonal(count, d - 1), min)
    }
}

/// Every line along which a run can lie: the diagonals that are long
/// enough, then the lines of equal first index, then those of equal second
/// index.
pub open spec fn spec_lines(count: int, min: int) -> Seq<Seq<Coordinates>> {
    spec_diagonal_lines(count, min, 2 * count) + Seq::new(
        count as nat,
        |x: int| spec_vertical(count, x),
    ) + Seq::new(count as nat, |y: int| spec_horizontal(count, y))
}

/// The lines as sequences of cells.
pub open spec fn line_views(lines: Seq<Vec<Coordinates>>) -> Seq<Seq<Coordinates>> {
    Seq::new(lines.len(), |i: int| lines[i]@)
}

/// Every line lies on the board and is no longer than its side.
pub open spec fn lines_on_board(lines: Seq<Seq<Coordinates>>, count: int) -> bool {
    forall|i: int|
        0 <= i < lines.len() ==> {
            &&& (#[trigger] lines[i]).len() <= count
            &&& forall|j: int| 0 <= j < lines[i].len() ==> (#[trigger] lines[i][j]).in_bounds(count)
        }
}

impl Board {
    /// All lines of the board: see `spec_lines`.
    pub fn get_lines(&self) -> (lines: Vec<Vec<Coordinates>>)
        requires
            self.wf(),
        ensures
            line_views(lines@) == spec_lines(self.tile_count as int, self.min_balls_on_line as int),
            lines_on_board(line_views(lines@), self.tile_count as int),
            lines@.len() <= 8 * self.tile_count,
    {
        let mut lines: Vec<Vec<Coordinates>> = Vec::new();
        let count: i32 = self.tile_count as i32;
        let ghost n = self.tile_count as int;
        let ghost min = self.min_balls_on_line as int;

        // diagonal lines
        let mut x: i32 = -count;
        while x < count * 2
            invariant
                1 <= n <= 255,
                count == n,
                -count <= x <= count * 2,
                line_views(lines@) == spec_diagonal_lines(n, min, x as int),
                lines_on_board(line_views(lines@), n),
                lines@.len() <= 2 * (x + count),
                min == self.min_balls_on_line,
            decreases count * 2 - x,
        {
            let mut diagonal: Vec<Coordinates> = Vec::new();
            let mut rev_diagonal: Vec<Coordinates> = Vec::new();
            let ghost lo = if x < 0 { -x as int } else { 0int };
            let ghost hi = if x > 0 { n - x } else { n };
            let ghost rlo = if x >= n { x - n + 1 } else { 0int };
            let ghost rhi = if x + 1 < n { x + 1 } else { n };

            let mut y: i32 = 0;
            while y < count
                invariant
                    1 <= n <= 255,
                    count == n,
                    -count <= x < count * 2,
                    0 <= y <= count,
                    lo == (if x < 0 { -x as int } else { 0int }),
                    hi == (if x > 0 { n - x } else { n }),
                    rlo == (if x >= n { x - n + 1 } else { 0int }),
                    rhi == (if x + 1 < n { x + 1 } else { n }),
                    diagonal@ == spec_diagonal(n, x as int).take(
                        if hi <= lo || y <= lo { 0int } else if y >= hi { hi - lo } else { y - lo },
                    ),
                    rev_diagonal@ == spec_rev_diagonal(n, x as int).take(
                        if rhi <= rlo || y <= rlo { 0int } else if y >= rhi { rhi - rlo } else { y - rlo },
                    ),
                decreases count - y,
            {
                let row = y;
                let col = x + y;
                if row >= 0 && row < count && col >= 0 && col < count {
                    diagonal.push(Coordinates(row as u8, col as u8));
                    assert(diagonal@ =~= spec_diagonal(n, x as int).take(y + 1 - lo));
                } else {
                    assert(y < lo || y >= hi);
                }
                let row = y;
                let col = x - y;
                if row >= 0 && row < count && col >= 0 && col < count {
                    rev_diagonal.push(Coordinates(row as u8, col as u8));
                    assert(rev_diagonal@ =~= spec_rev_diagonal(n, x as int).take(y + 1 - rlo));
                } else {
                    assert(y < rlo || y >= rhi);
                }
                y += 1;
            }
            proof {
                assert(diagonal@ =~= spec_diagonal(n, x as int));
                assert(rev_diagonal@ =~= spec_rev_diagonal(n, x as int));
            }
            let ghost before = line_views(lines@);
            if diagonal.len() >= self.min_balls_on_line {
                lines.push(diagonal);
            }
            assert(line_views(lines@) =~= before + spec_kept(spec_diagonal(n, x as int), min));
            let ghost middle = line_views(lines@);
            if rev_diagonal.len() >= self.min_balls_on_line {
                lines.push(rev_diagonal);
            }
            assert(line_views(lines@) =~= middle + spec_kept(spec_rev_diagonal(n, x as int), min));
            x += 1;
        }
        let ghost diagonals = line_views(lines@);

        // vertical lines
        let mut x: u8 = 0;
        while x < self.tile_count
            invariant
                1 <= n <= 255,
                n == self.tile_count,
                x <= n,
                line_views(lines@) == diagonals + Seq::new(
                    x as nat,
                    |k: int| spec_vertical(n, k),
                ),
                lines_on_board(line_views(lines@), n),
                lines@.len() <= 6 * n + x,
            decreases n - x,
        {
            let mut line: Vec<Coordinates> = Vec::new();
            let mut y: u8 = 0;
            while y < self.tile_count
                invariant
                    n == self.tile_count,
                    x < n,
                    y <= n,
                    line@ == spec_vertical(n, x as int).take(y as int),
                decreases n - y,
            {
                line.push(Coordinates(x, y));
                assert(line@ =~= spec_vertical(n, x as int).take(y + 1));
                y += 1;
            }
            assert(line@ =~= spec_vertical(n, x as int));
            let ghost before = line_views(lines@);
            lines.push(line);
            assert(line_views(lines@) =~= before.push(spec_vertical(n, x as int)));
            assert(line_views(lines@) =~= diagonals + Seq::new(
                (x + 1) as nat,
                |k: int| spec_vertical(n, k),
            ));
            x += 1;
        }
        let ghost upright = line_views(lines@);

        // horizontal lines
        let mut y: u8 = 0;
        while y < self.tile_count
            invariant
                1 <= n <= 255,
                n == self.tile_count,
                y <= n,
                line_views(lines@) == upright + Seq::new(
                    y as nat,
                    |k: int| spec_horizontal(n, k),
                ),
                lines_on_board(line_views(lines@), n),
                lines@.len() <= 7 * n + y,
            decreases n - y,
        {
            let mut line: Vec<Coordinates> = Vec::new();
            let mut x: u8 = 0;
            while x < self.tile_count
                invariant
                    n == self.tile_count,
                    y < n,
                    x <= n,
                    line@ == spec_horizontal(n, y as int).take(x as int),
                decreases n - x,
            {
                line.push(Coordinates(x, y));
                assert(line@ =~= spec_horizontal(n, y as int).take(x + 1));
                x += 1;
            }
            assert(line@ =~= spec_horizontal(n, y as int));
            let ghost before = line_views(lines@);
            lines.push(line);
            assert(line_views(lines@) =~= before.push(spec_horizontal(n, y as int)));
            assert(line_views(lines@) =~= upright + Seq::new(
                (y + 1) as nat,
                |k: int| spec_horizontal(n, k),
            ));
            y += 1;
        }
        lines
    }
}

} // verus!
