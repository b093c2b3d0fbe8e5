use rand::rngs::StdRng;
use vstd::prelude::*;

use crate::random::random_below;

verus! {

/// The palette: a ball has one of seven colors.
#[derive(Debug, Clone, Copy, PartialEq, Eq, Structural)]
pub enum BallColor {
    Red,
    Blue,
    Cyan,
    Green,
    Purple,
    Brown,
    Yellow,
}

impl BallColor {
    /// The color that stands at place `i` of the palette; every number
    /// from six on names the last one.
    pub open spec fn spec_from_index(i: int) -> BallColor {
        if i == 0 {
            BallColor::Red
        } else if i == 1 {
            BallColor::Blue
        } else if i == 2 {
            BallColor::Cyan
        } else if i == 3 {
            BallColor::Green
        } else if i == 4 {
            BallColor::Purple
        } else if i == 5 {
            BallColor::Brown
        } else {
            BallColor::Yellow
        }
    }

    pub fn from_index(i: u8) -> (color: BallColor)
        ensures
            color == Self::spec_from_index(i as int),
    {
        match i {
            0 => BallColor::Red,
            1 => BallColor::Blue,
            2 => BallColor::Cyan,
            3 => BallColor::Green,
            4 => BallColor::Purple,
            5 => BallColor::Brown,
            _ => BallColor::Yellow,
        }
    }

    /// Rolls a color. Which one comes depends on the generator alone.
    pub fn new(rng: &mut StdRng) -> (color: BallColor)
        ensures
            exists|i: int| 0 <= i < 7 && color == Self::spec_from_index(i),
    {
        let i: u8 = random_below(rng, 7);
        Self::from_index(i)
    }
}

/// A ball on the board: its color, and the handle under which whoever draws
/// the board knows it. The handle is carried along and never looked into.
#[derive(Debug, Clone, Copy, PartialEq, Eq, Structural)]
pub struct BallEntity {
    pub color: BallColor,
    pub entity: u64,
}

impl BallEntity {
    pub fn new(color: BallColor, entity: u64) -> (ball: BallEntity)
        ensures
            ball.color == color,
            ball.entity == entity,
    {
        Self { color, entity }
    }
}

} // verus!
