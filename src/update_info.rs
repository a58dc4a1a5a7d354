use vstd::prelude::*;
use crate::cell::{Cell, CellFlag};
use crate::explorer::{point_in_grid, in_grid, Explorer, MAZE_HEIGHT, MAZE_WIDTH};
use crate::point::Point;

verus! {

/// A sensor report for one cell: for each of its four edges, `Some(true)`
/// for a wall, `Some(false)` for an opening, `None` for no information.
#[derive(Debug)]
pub struct UpdateInfo {
    /// The cell reported on.
    pub p: Point,
    pub up: Option<bool>,
    pub down: Option<bool>,
    pub left: Option<bool>,
    pub right: Option<bool>,
}

impl Default for UpdateInfo {
    /// A report on the origin that carries no information.
    fn default() -> (r: UpdateInfo)
        ensures
            r.p == (Point { x: 0, y: 0 }),
            r.up is None && r.down is None && r.left is None && r.right is None,
    {
        UpdateInfo { p: Point::default(), up: None, down: None, left: None, right: None }
    }
}

/// `c` with its up edge set from `wall` when the report carries a value.
pub open spec fn with_up_wall(c: Cell, wall: Option<bool>) -> Cell {
    match wall {
        Some(w) => Cell {
            flag: CellFlag { is_updated_up_wall: true, is_exists_up_wall: w, ..c.flag },
            ..c
        },
        None => c,
    }
}

/// `c` with its right edge set from `wall` when the report carries a value.
pub open spec fn with_right_wall(c: Cell, wall: Option<bool>) -> Cell {
    match wall {
        Some(w) => Cell {
            flag: CellFlag { is_updated_right_wall: true, is_exists_right_wall: w, ..c.flag },
            ..c
        },
        None => c,
    }
}

/// Applies the up-edge part of a report to `c`.
fn with_up_wall_of(c: Cell, wall: Option<bool>) -> (r: Cell)
    ensures
        r == with_up_wall(c, wall),
{
    let mut r = c;
    if let Some(w) = wall {
        r.flag.is_updated_up_wall = true;
        r.flag.is_exists_up_wall = w;
    }
    r
}

/// Applies the right-edge part of a report to `c`.
fn with_right_wall_of(c: Cell, wall: Option<bool>) -> (r: Cell)
    ensures
        r == with_right_wall(c, wall),
{
    let mut r = c;
    if let Some(w) = wall {
        r.flag.is_updated_right_wall = true;
        r.flag.is_exists_right_wall = w;
    }
    r
}

impl Explorer {
    /// A report is applied only to a cell on the grid that has not been
    /// reported before.
    pub open spec fn accepts_report(self, info: UpdateInfo) -> bool {
        point_in_grid(info.p) && !self.cell_at(info.p).flag.is_updated
    }

    /// Cell `(x, y)` once `info` is applied: the reported cell takes its up
    /// and right edges and is marked updated; its down edge goes to the cell
    /// below and its left edge to the cell on the left, where those exist.
    pub open spec fn reported_cell(self, info: UpdateInfo, x: int, y: int) -> Cell {
        let px = info.p.x as int;
        let py = info.p.y as int;
        let c = self.cell(x, y);
        if x == px && y == py {
            let w = with_right_wall(with_up_wall(c, info.up), info.right);
            Cell { flag: CellFlag { is_updated: true, ..w.flag }, ..w }
        } else if x == px && y == py - 1 {
            with_up_wall(c, info.down)
        } else if x == px - 1 && y == py {
            with_right_wall(c, info.left)
        } else {
            c
        }
    }

    /// Applying a report changes no cost, availability or queued flag, and
    /// loses nothing learnt.
    pub proof fn lemma_report_keeps_costs(self, next: Explorer, info: UpdateInfo)
        requires
            self.wf(),
            next.same_setting(self),
            next.start == self.start,
            next.provider == self.provider,
            next.reached == self.reached,
            forall|x: int, y: int|
                #![trigger next.cell(x, y)]
                in_grid(x, y) ==> next.cell(x, y) == self.reported_cell(info, x, y),
        ensures
            next.wf(),
            self.progresses_to(next),
    {
        assert forall|i: int, j: int| in_grid(i, j) implies {
            &&& #[trigger] next.cell(i, j).flag.is_provider_pushed == self.cell(i, j).flag.is_provider_pushed
            &&& next.cell(i, j).flag.is_cost_available == self.cell(i, j).flag.is_cost_available
            &&& next.cell(i, j).cost == self.cell(i, j).cost
            &&& self.cell(i, j).progresses_to(next.cell(i, j))
        } by {
            assert(next.cell(i, j) == self.reported_cell(info, i, j));
        }
        self.lemma_wf_same_costs(next);
    }

    /// Records the walls that `info` reports. A report on a cell off the grid,
    /// or on a cell already reported, is refused and changes nothing.
    pub fn update(&mut self, info: &UpdateInfo)
        requires
            old(self).wf(),
        ensures
            final(self).wf(),
            old(self).progresses_to(*final(self)),
            !old(self).accepts_report(*info) ==> *final(self) == *old(self),
            old(self).accepts_report(*info) ==> {
                &&& forall|x: int, y: int|
                    #![trigger final(self).cell(x, y)]
                    in_grid(x, y) ==> final(self).cell(x, y) == old(self).reported_cell(*info, x, y)
                &&& final(self).same_setting(*old(self))
                &&& final(self).provider == old(self).provider
            },
    {
        if info.p.x >= MAZE_WIDTH || info.p.y >= MAZE_HEIGHT {
            return;
        }
        let x = info.p.x;
        let y = info.p.y;
        if self.cells[y][x].flag.is_updated {
            return;
        }
        let ghost before = *self;
        let mut c = with_right_wall_of(with_up_wall_of(self.cells[y][x], info.up), info.right);
        c.flag.is_updated = true;
        self.set_cell(x, y, c);
        let ghost s1 = *self;
        if y > 0 {
            let d = with_up_wall_of(self.cells[y - 1][x], info.down);
            self.set_cell(x, y - 1, d);
        }
        let ghost s2 = *self;
        if x > 0 {
            let l = with_right_wall_of(self.cells[y][x - 1], info.left);
            self.set_cell(x - 1, y, l);
        }
        proof {
            assert forall|i: int, j: int| in_grid(i, j) implies #[trigger] self.cell(i, j)
                == before.reported_cell(*info, i, j) by {
                assert(s1.cell(i, j) == if i == x && j == y { c } else { before.cell(i, j) });
                if i == x && j == y {
                    assert(s2.cell(i, j) == c);
                    assert(self.cell(i, j) == c);
                } else if i == x && j == y - 1 {
                    assert(self.cell(i, j) == s2.cell(i, j));
                    assert(s2.cell(i, j) == with_up_wall(before.cell(i, j), info.down));
                } else if i == x - 1 && j == y {
                    assert(s2.cell(i, j) == before.cell(i, j));
                } else {
                    assert(s2.cell(i, j) == before.cell(i, j));
                    assert(self.cell(i, j) == before.cell(i, j));
                }
            }
            before.lemma_report_keeps_costs(*self, *info);

        }
    }
}

} // verus!
