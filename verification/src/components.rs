use vstd::prelude::*;

use crate::consts::{ARENA_HEIGHT, ARENA_WIDTH};

verus! {

/// One of the four unit moves on the grid.
#[derive(Clone, Copy, Debug, PartialEq, Eq, Structural)]
pub enum Dir {
    Left,
    Right,
    Up,
    Down,
}

/// A board cell, addressed by column `x` and row `y`.
#[derive(Clone, Copy, Debug, PartialEq, Eq, Structural)]
pub struct Pos {
    pub x: i32,
    pub y: i32,
}

impl Dir {
    /// The reverse of this direction; `opposite` is an involution.
    pub open spec fn spec_opposite(self) -> Dir {
        match self {
            Dir::Left => Dir::Right,
            Dir::Right => Dir::Left,
            Dir::Up => Dir::Down,
            Dir::Down => Dir::Up,
        }
    }

    pub fn opposite(self) -> (r: Dir)
        ensures
            r == self.spec_opposite(),
    {
        match self {
            Dir::Left => Dir::Right,
            Dir::Right => Dir::Left,
            Dir::Up => Dir::Down,
            Dir::Down => Dir::Up,
        }
    }
}

impl Pos {
    pub fn new(x: i32, y: i32) -> (p: Pos)
        ensures
            p == (Pos { x, y }),
    {
        Pos { x, y }
    }

    /// A position is in bounds iff 0 <= x < ARENA_WIDTH and 0 <= y < ARENA_HEIGHT.
    pub open spec fn spec_in_bounds(self) -> bool {
        0 <= self.x < ARENA_WIDTH && 0 <= self.y < ARENA_HEIGHT
    }

    pub fn in_bounds(self) -> (r: bool)
        ensures
            r == self.spec_in_bounds(),
    {
        self.x >= 0 && self.y >= 0 && self.x < ARENA_WIDTH as i32 && self.y < ARENA_HEIGHT as i32
    }

    /// The adjacent position one unit in direction `d`; no bounds check.
    pub open spec fn spec_in_direction(self, d: Dir) -> Pos {
        match d {
            Dir::Left => Pos { x: (self.x - 1) as i32, y: self.y },
            Dir::Right => Pos { x: (self.x + 1) as i32, y: self.y },
            Dir::Up => Pos { x: self.x, y: (self.y + 1) as i32 },
            Dir::Down => Pos { x: self.x, y: (self.y - 1) as i32 },
        }
    }

    pub fn in_direction(self, direction: Dir) -> (r: Pos)
        requires
            i32::MIN < self.x < i32::MAX,
            i32::MIN < self.y < i32::MAX,
        ensures
            r == self.spec_in_direction(direction),
    {
        match direction {
            Dir::Left => Pos::new(self.x - 1, self.y),
            Dir::Right => Pos::new(self.x + 1, self.y),
            Dir::Up => Pos::new(self.x, self.y + 1),
            Dir::Down => Pos::new(self.x, self.y - 1),
        }
    }
}

/// Stepping one unit in a direction and then in its opposite returns to the
/// starting position, as long as neither coordinate leaves the i32 range.
pub proof fn lemma_step_opposite(p: Pos, d: Dir)
    requires
        i32::MIN < p.x < i32::MAX,
        i32::MIN < p.y < i32::MAX,
    ensures
        p.spec_in_direction(d).spec_in_direction(d.spec_opposite()) == p,
{
}

} // verus!
