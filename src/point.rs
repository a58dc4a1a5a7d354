use vstd::prelude::*;
use crate::direction::Direction;

verus! {

/// A grid coordinate; `y` grows upwards.
#[derive(Copy, Clone, Debug, PartialEq, Eq, Structural)]
pub struct Point {
    pub x: usize,
    pub y: usize,
}

/// `|a - b|`.
pub open spec fn abs_diff(a: int, b: int) -> int {
    if a >= b { a - b } else { b - a }
}

/// The heuristic distance: the Chebyshev distance `max(|dx|, |dy|)`.
pub open spec fn chebyshev(a: Point, b: Point) -> int {
    let dx = abs_diff(a.x as int, b.x as int);
    let dy = abs_diff(a.y as int, b.y as int);
    if dx >= dy { dx } else { dy }
}

impl Default for Point {
    fn default() -> (r: Point)
        ensures
            r.x == 0 && r.y == 0,
    {
        Point { x: 0, y: 0 }
    }
}

impl Point {
    /// Whether the step `dir` from this point stays at non-negative
    /// coordinates that fit in `usize`.
    pub open spec fn can_step(self, dir: Direction) -> bool {
        0 <= self.x + dir.dx() <= usize::MAX && 0 <= self.y + dir.dy() <= usize::MAX
    }

    /// The point one step away in direction `dir`.
    pub open spec fn spec_around(self, dir: Direction) -> Point {
        Point { x: (self.x + dir.dx()) as usize, y: (self.y + dir.dy()) as usize }
    }

    /// Heuristic distance to `other` (Chebyshev: diagonal steps cost one).
    pub fn distance(&self, other: Point) -> (r: usize)
        ensures
            r == chebyshev(*self, other),
    {
        let dx = if self.x >= other.x { self.x - other.x } else { other.x - self.x };
        let dy = if self.y >= other.y { self.y - other.y } else { other.y - self.y };
        if dx >= dy {
            dx
        } else {
            dy
        }
    }

    /// The point one step away in direction `dir`; the caller has made sure
    /// that the step stays on valid coordinates.
    pub fn get_around(&self, dir: Direction) -> (r: Point)
        requires
            self.can_step(dir),
        ensures
            r == self.spec_around(dir),
    {
        match dir {
            Direction::NoDir => *self,
            Direction::Up => Point { x: self.x, y: self.y + 1 },
            Direction::Down => Point { x: self.x, y: self.y - 1 },
            Direction::Left => Point { x: self.x - 1, y: self.y },
            Direction::Right => Point { x: self.x + 1, y: self.y },
            Direction::UpLeft => Point { x: self.x - 1, y: self.y + 1 },
            Direction::UpRight => Point { x: self.x + 1, y: self.y + 1 },
            Direction::DownLeft => Point { x: self.x - 1, y: self.y - 1 },
            Direction::DownRight => Point { x: self.x + 1, y: self.y - 1 },
        }
    }
}

} // verus!
