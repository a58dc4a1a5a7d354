use vstd::prelude::*;
use crate::search_info::SearchInfo;

verus! {

/// The independent facts recorded for one cell.
#[derive(Copy, Clone, Debug, PartialEq, Eq, Structural)]
pub struct CellFlag {
    /// The cell's own sensor report has been applied.
    pub is_updated: bool,
    /// The cell's neighbours have been evaluated for expansion.
    pub is_search_around: bool,
    /// The cell has been placed on the frontier at some time.
    pub is_provider_pushed: bool,
    /// `cost` and `from_info` hold a valid value.
    pub is_cost_available: bool,
    /// A smaller cost was found after the first one was set.
    pub is_cost_dirty: bool,
    /// Reserved: the cell lies on the extracted shortest route.
    pub is_answer: bool,
    /// Reserved: the cell is not worth expanding once the goal cost is known.
    pub is_invalidated: bool,
    /// The right edge holds a wall (meaningful when `is_updated_right_wall`).
    pub is_exists_right_wall: bool,
    /// The right edge has been reported.
    pub is_updated_right_wall: bool,
    /// The up edge holds a wall (meaningful when `is_updated_up_wall`).
    pub is_exists_up_wall: bool,
    /// The up edge has been reported.
    pub is_updated_up_wall: bool,
}

impl CellFlag {
    /// No fact recorded.
    pub open spec fn spec_empty() -> CellFlag {
        CellFlag {
            is_updated: false,
            is_search_around: false,
            is_provider_pushed: false,
            is_cost_available: false,
            is_cost_dirty: false,
            is_answer: false,
            is_invalidated: false,
            is_exists_right_wall: false,
            is_updated_right_wall: false,
            is_exists_up_wall: false,
            is_updated_up_wall: false,
        }
    }
}

impl Default for CellFlag {
    fn default() -> (r: CellFlag)
        ensures
            r == CellFlag::spec_empty(),
    {
        CellFlag {
            is_updated: false,
            is_search_around: false,
            is_provider_pushed: false,
            is_cost_available: false,
            is_cost_dirty: false,
            is_answer: false,
            is_invalidated: false,
            is_exists_right_wall: false,
            is_updated_right_wall: false,
            is_exists_up_wall: false,
            is_updated_up_wall: false,
        }
    }
}

/// The state of one grid cell: its two owned edges (up and right), the best
/// known cost from the start, the cell that cost came from, and the flags.
#[derive(Copy, Clone, Debug)]
pub struct Cell {
    /// Steps from the start; only meaningful while `flag.is_cost_available`.
    pub cost: usize,
    /// The cell the current cost came from.
    pub from_info: SearchInfo,
    pub flag: CellFlag,
}

impl Cell {
    /// A fresh cell: nothing known, cost at its sentinel, no predecessor.
    pub open spec fn spec_default() -> Cell {
        Cell { cost: usize::MAX, from_info: SearchInfo::spec_none(), flag: CellFlag::spec_empty() }
    }

    /// The cell after relaxing its cost with `new_cost` reached from `from`:
    /// an unset cost is adopted; a strictly smaller one replaces the current
    /// one and marks the cost dirty; anything else leaves the cell as it is.
    pub open spec fn relaxed(self, new_cost: usize, from: SearchInfo) -> Cell {
        if !self.flag.is_cost_available {
            Cell {
                cost: new_cost,
                from_info: from,
                flag: CellFlag { is_cost_available: true, ..self.flag },
            }
        } else if new_cost < self.cost {
            Cell {
                cost: new_cost,
                from_info: from,
                flag: CellFlag { is_cost_dirty: true, ..self.flag },
            }
        } else {
            self
        }
    }

    /// Nothing learnt is lost from `self` to `next`: each flag set stays set
    /// (the wall-presence bits aside), and an available cost never grows.
    pub open spec fn progresses_to(self, next: Cell) -> bool {
        &&& self.flag.is_updated ==> next.flag.is_updated
        &&& self.flag.is_search_around ==> next.flag.is_search_around
        &&& self.flag.is_provider_pushed ==> next.flag.is_provider_pushed
        &&& self.flag.is_cost_available ==> next.flag.is_cost_available && next.cost <= self.cost
        &&& self.flag.is_cost_dirty ==> next.flag.is_cost_dirty
        &&& self.flag.is_answer ==> next.flag.is_answer
        &&& self.flag.is_invalidated ==> next.flag.is_invalidated
        &&& self.flag.is_updated_right_wall ==> next.flag.is_updated_right_wall
        &&& self.flag.is_updated_up_wall ==> next.flag.is_updated_up_wall
    }

    /// Relaxes the cost towards `new_cost`, recording `from_info` as the
    /// predecessor whenever the new cost is adopted.
    pub fn update_cost(&mut self, new_cost: usize, from_info: SearchInfo)
        ensures
            *final(self) == old(self).relaxed(new_cost, from_info),
            old(self).progresses_to(*final(self)),
            final(self).flag.is_cost_available,
            final(self).cost <= new_cost,
    {
        if self.flag.is_cost_available {
            if new_cost < self.cost {
                self.flag.is_cost_dirty = true;
                self.from_info = from_info;
                self.cost = new_cost;
            }
        } else {
            self.from_info = from_info;
            self.cost = new_cost;
        }
        self.flag.is_cost_available = true;
    }
}

impl Default for Cell {
    fn default() -> (r: Cell)
        ensures
            r == Cell::spec_default(),
    {
        Cell { cost: usize::MAX, from_info: SearchInfo::default(), flag: CellFlag::default() }
    }
}

} // verus!
