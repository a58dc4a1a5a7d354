use vstd::prelude::*;

verus! {

/// One step on the grid: none, the four orthogonal moves and the four diagonal ones.
#[derive(Copy, Clone, Debug, PartialEq, Eq, Structural)]
pub enum Direction {
    NoDir,
    Up,
    Down,
    Left,
    Right,
    UpLeft,
    UpRight,
    DownLeft,
    DownRight,
}

impl Direction {
    /// Horizontal offset of the step.
    pub open spec fn dx(self) -> int {
        match self {
            Direction::Left | Direction::UpLeft | Direction::DownLeft => -1,
            Direction::Right | Direction::UpRight | Direction::DownRight => 1,
            _ => 0,
        }
    }

    /// Vertical offset of the step (up is towards larger `y`).
    pub open spec fn dy(self) -> int {
        match self {
            Direction::Down | Direction::DownLeft | Direction::DownRight => -1,
            Direction::Up | Direction::UpLeft | Direction::UpRight => 1,
            _ => 0,
        }
    }

    /// Position of the step in the fixed order in which an expansion lists
    /// the neighbours of a cell: up, right, down, left, then the diagonals.
    pub open spec fn rank(self) -> int {
        match self {
            Direction::Up => 0,
            Direction::Right => 1,
            Direction::Down => 2,
            Direction::Left => 3,
            Direction::UpLeft => 4,
            Direction::UpRight => 5,
            Direction::DownLeft => 6,
            Direction::DownRight => 7,
            Direction::NoDir => 8,
        }
    }

    /// The step that comes `k`-th in expansion order.
    pub open spec fn of_rank(k: int) -> Direction {
        if k == 0 {
            Direction::Up
        } else if k == 1 {
            Direction::Right
        } else if k == 2 {
            Direction::Down
        } else if k == 3 {
            Direction::Left
        } else if k == 4 {
            Direction::UpLeft
        } else if k == 5 {
            Direction::UpRight
        } else if k == 6 {
            Direction::DownLeft
        } else if k == 7 {
            Direction::DownRight
        } else {
            Direction::NoDir
        }
    }

    /// The step that comes `k`-th in expansion order.
    pub fn from_rank(k: usize) -> (r: Direction)
        ensures
            r == Direction::of_rank(k as int),
    {
        match k {
            0 => Direction::Up,
            1 => Direction::Right,
            2 => Direction::Down,
            3 => Direction::Left,
            4 => Direction::UpLeft,
            5 => Direction::UpRight,
            6 => Direction::DownLeft,
            7 => Direction::DownRight,
            _ => Direction::NoDir,
        }
    }

    /// The step whose offsets are `(dx, dy)`, or `NoDir` if there is none.
    pub open spec fn from_offset(dx: int, dy: int) -> Direction {
        if dx == 0 && dy == 1 {
            Direction::Up
        } else if dx == 1 && dy == 0 {
            Direction::Right
        } else if dx == 0 && dy == -1 {
            Direction::Down
        } else if dx == -1 && dy == 0 {
            Direction::Left
        } else if dx == -1 && dy == 1 {
            Direction::UpLeft
        } else if dx == 1 && dy == 1 {
            Direction::UpRight
        } else if dx == -1 && dy == -1 {
            Direction::DownLeft
        } else if dx == 1 && dy == -1 {
            Direction::DownRight
        } else {
            Direction::NoDir
        }
    }
}

} // verus!
