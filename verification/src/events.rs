use vstd::prelude::*;

use crate::ball::BallColor;
use crate::coordinates::Coordinates;

verus! {

/// Asks for the next batch of balls.
pub struct SpawnBallsEvent;

/// Asks for one ball of the given color on a free cell.
pub struct SpawnNewBallEvent(pub BallColor);

/// Says that the colors of the upcoming balls have changed.
pub struct ChangeNextBallsEvent;

/// Says by how much the score has grown for one run.
pub struct IncrementCurrentGameScore(pub u32);

/// Asks to arm the ball on a cell.
pub struct SelectBallEvent(pub Coordinates);

/// Asks to take the armed ball to a cell.
pub struct MoveBallEvent(pub Coordinates);

} // verus!
