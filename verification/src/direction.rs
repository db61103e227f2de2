//! The four cardinal directions, their grid deltas and their opposites.

use vstd::prelude::*;

verus! {

/// A cardinal direction. The position of a direction in the order
/// West, South, East, North is also its lane index in per-direction tables.
#[derive(Copy, Clone, PartialEq, Eq, Structural, Debug)]
pub enum Direction {
    West,
    South,
    East,
    North,
}

/// The directions in lane order.
pub const DIRECTIONS: [Direction; 4] = [
    Direction::West,
    Direction::South,
    Direction::East,
    Direction::North,
];

/// Grid step and opposite of one direction.
#[derive(Copy, Clone, Debug)]
pub struct DirectionInfo {
    pub dx: i32,
    pub dy: i32,
    pub opposite: Direction,
}

impl Direction {
    /// Lane index of the direction: West 0, South 1, East 2, North 3.
    pub open spec fn spec_index(self) -> int {
        match self {
            Direction::West => 0,
            Direction::South => 1,
            Direction::East => 2,
            Direction::North => 3,
        }
    }

    /// Horizontal step of the direction.
    pub open spec fn spec_dx(self) -> int {
        match self {
            Direction::West => -1,
            Direction::South => 0,
            Direction::East => 1,
            Direction::North => 0,
        }
    }

    /// Vertical step of the direction (rows grow southwards).
    pub open spec fn spec_dy(self) -> int {
        match self {
            Direction::West => 0,
            Direction::South => 1,
            Direction::East => 0,
            Direction::North => -1,
        }
    }

    /// The direction pointing the other way.
    pub open spec fn spec_opposite(self) -> Direction {
        match self {
            Direction::West => Direction::East,
            Direction::South => Direction::North,
            Direction::East => Direction::West,
            Direction::North => Direction::South,
        }
    }

    /// The direction with the given lane index.
    pub open spec fn spec_from_index(k: int) -> Direction {
        if k == 0 {
            Direction::West
        } else if k == 1 {
            Direction::South
        } else if k == 2 {
            Direction::East
        } else {
            Direction::North
        }
    }

    /// Lane index of the direction: West 0, South 1, East 2, North 3.
    pub fn index(self) -> (k: usize)
        ensures
            k == self.spec_index(),
            k < 4,
    {
        match self {
            Direction::West => 0,
            Direction::South => 1,
            Direction::East => 2,
            Direction::North => 3,
        }
    }

    /// The direction with the given lane index.
    pub fn from_index(k: usize) -> (d: Direction)
        requires
            k < 4,
        ensures
            d == Direction::spec_from_index(k as int),
            d.spec_index() == k,
    {
        if k == 0 {
            Direction::West
        } else if k == 1 {
            Direction::South
        } else if k == 2 {
            Direction::East
        } else {
            Direction::North
        }
    }

    /// Grid step and opposite of the direction.
    pub fn info(self) -> (r: DirectionInfo)
        ensures
            r.dx == self.spec_dx(),
            r.dy == self.spec_dy(),
            r.opposite == self.spec_opposite(),
    {
        match self {
            Direction::West => DirectionInfo { dx: -1, dy: 0, opposite: Direction::East },
            Direction::South => DirectionInfo { dx: 0, dy: 1, opposite: Direction::North },
            Direction::East => DirectionInfo { dx: 1, dy: 0, opposite: Direction::West },
            Direction::North => DirectionInfo { dx: 0, dy: -1, opposite: Direction::South },
        }
    }
}

/// Taking the opposite twice gives the direction back, the opposite lies in
/// another lane, and its step is the negated step.
pub proof fn lemma_opposite_involutive(d: Direction)
    ensures
        d.spec_opposite().spec_opposite() == d,
        d.spec_opposite() != d,
        d.spec_opposite().spec_dx() == -d.spec_dx(),
        d.spec_opposite().spec_dy() == -d.spec_dy(),
{
}

} // verus!
