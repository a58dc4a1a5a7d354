use vstd::prelude::*;
use crate::cell::{Cell, CellFlag};
use crate::direction::Direction;
use crate::point::Point;
use crate::point::chebyshev;
use crate::search_info::{SearchInfo, SearchInfoProvider, SEARCH_INFO_STORE_SIZE};
use crate::targets::{targets_of, Targets};

verus! {

/// Width of the grid.
pub const MAZE_WIDTH: usize = 32;
/// Height of the grid.
pub const MAZE_HEIGHT: usize = 32;

/// Whether `(x, y)` lies on the grid.
pub open spec fn in_grid(x: int, y: int) -> bool {
    0 <= x < MAZE_WIDTH && 0 <= y < MAZE_HEIGHT
}

/// Whether `p` lies on the grid.
pub open spec fn point_in_grid(p: Point) -> bool {
    in_grid(p.x as int, p.y as int)
}

/// Row-major index of `(x, y)`.
pub open spec fn cell_index(x: int, y: int) -> int {
    y * MAZE_WIDTH + x
}

/// The state of cell `(x, y)` right after construction: the outer top and
/// right edges are known walls, every other edge is unknown, and the origin
/// has cost 0, available, and counts as already queued.
pub open spec fn initial_cell(x: int, y: int) -> Cell {
    let origin = x == 0 && y == 0;
    let right_edge = x == MAZE_WIDTH - 1;
    let top_edge = y == MAZE_HEIGHT - 1;
    Cell {
        cost: if origin { 0 } else { usize::MAX },
        from_info: SearchInfo::spec_none(),
        flag: CellFlag {
            is_provider_pushed: origin,
            is_cost_available: origin,
            is_exists_right_wall: right_edge,
            is_updated_right_wall: right_edge,
            is_exists_up_wall: top_edge,
            is_updated_up_wall: top_edge,
            ..CellFlag::spec_empty()
        },
    }
}

/// The exploration engine: the grid of cells, start and goal, and the frontier.
pub struct Explorer {
    /// Start position, always the origin.
    pub start: Point,
    /// Goal position.
    pub goal: Point,
    /// Cells, indexed `cells[y][x]`.
    pub cells: [[Cell; MAZE_WIDTH]; MAZE_HEIGHT],
    /// Cells queued for expansion.
    pub provider: SearchInfoProvider,
    /// Reserved: the best full-route cost once the goal is reached.
    pub min_cost: Option<usize>,
    /// Indices of the cells whose cost is available.
    pub reached: Ghost<Set<int>>,
}

impl Explorer {
    /// Cell `(x, y)`.
    pub open spec fn cell(self, x: int, y: int) -> Cell {
        self.cells[y][x]
    }

    /// Cell at `p`.
    pub open spec fn cell_at(self, p: Point) -> Cell {
        self.cell(p.x as int, p.y as int)
    }

    /// The up edge of `(x, y)` is known to be open.
    pub open spec fn up_open(self, x: int, y: int) -> bool {
        self.cell(x, y).flag.is_updated_up_wall && !self.cell(x, y).flag.is_exists_up_wall
    }

    /// The right edge of `(x, y)` is known to be open.
    pub open spec fn right_open(self, x: int, y: int) -> bool {
        self.cell(x, y).flag.is_updated_right_wall && !self.cell(x, y).flag.is_exists_right_wall
    }

    /// Whether the step `d` from `(x, y)` is passable on current knowledge.
    /// An orthogonal step needs its edge known open and its target on the
    /// grid; a diagonal step needs its target on the grid and at least one of
    /// its two L-shaped detours fully open.
    pub open spec fn can_move(self, x: int, y: int, d: Direction) -> bool {
        let up = y + 1 < MAZE_HEIGHT && self.up_open(x, y);
        let right = x + 1 < MAZE_WIDTH && self.right_open(x, y);
        let down = y > 0 && self.up_open(x, y - 1);
        let left = x > 0 && self.right_open(x - 1, y);
        match d {
            Direction::NoDir => false,
            Direction::Up => up,
            Direction::Right => right,
            Direction::Down => down,
            Direction::Left => left,
            Direction::UpLeft => x > 0 && y + 1 < MAZE_HEIGHT && ((up && self.right_open(x - 1, y + 1))
                || (left && self.up_open(x - 1, y))),
            Direction::UpRight => x + 1 < MAZE_WIDTH && y + 1 < MAZE_HEIGHT && ((up && self.right_open(
                x,
                y + 1,
            )) || (right && self.up_open(x + 1, y))),
            Direction::DownLeft => x > 0 && y > 0 && ((down && self.right_open(x - 1, y - 1)) || (left
                && self.up_open(x - 1, y - 1))),
            Direction::DownRight => x + 1 < MAZE_WIDTH && y > 0 && ((down && self.right_open(x, y - 1))
                || (right && self.up_open(x + 1, y - 1))),
        }
    }

    /// The step from `p` to `(x, y)`, or `NoDir` when they are not neighbours.
    pub open spec fn step_to(p: Point, x: int, y: int) -> Direction {
        Direction::from_offset(x - p.x, y - p.y)
    }

    /// `(x, y)` is a neighbour of `p` that an expansion of `p` reaches.
    pub open spec fn is_target(self, p: Point, x: int, y: int) -> bool {
        let d = Self::step_to(p, x, y);
        d != Direction::NoDir && self.can_move(p.x as int, p.y as int, d)
    }

    /// `(x, y)` is a target of `p` that an expansion of `p` puts on the frontier.
    pub open spec fn is_new_target(self, p: Point, x: int, y: int) -> bool {
        self.is_target(p, x, y) && !self.cell(x, y).flag.is_search_around
            && !self.cell(x, y).flag.is_provider_pushed
    }

    /// `c`, marked queued when `mark` holds.
    pub open spec fn mark_queued(c: Cell, mark: bool) -> Cell {
        if mark {
            Cell { flag: CellFlag { is_provider_pushed: true, ..c.flag }, ..c }
        } else {
            c
        }
    }

    /// The target `(x, y)` of `p` after an expansion of `p` relaxed it, and
    /// marked it queued unless it was expanded or queued before.
    pub open spec fn visited_cell(self, p: Point, x: int, y: int) -> Cell {
        let c = self.cell(x, y);
        Self::mark_queued(
            c.relaxed((self.cell_at(p).cost + 1) as usize, SearchInfo::spec_from_point(p)),
            !c.flag.is_search_around && !c.flag.is_provider_pushed,
        )
    }

    /// An expansion of `p` does its work: `p` lies on the grid with an
    /// available cost, and the frontier has room for eight more entries.
    pub open spec fn can_expand(self, p: Point) -> bool {
        &&& point_in_grid(p)
        &&& self.cell_at(p).flag.is_cost_available
        &&& self.provider.entries().len() + 8 <= SEARCH_INFO_STORE_SIZE
    }

    /// Cell `(x, y)` after an expansion of `p` that did its work: `p` is
    /// marked expanded, its targets are visited, other cells are unchanged.
    pub open spec fn expanded_cell(self, p: Point, x: int, y: int) -> Cell {
        let c = self.cell(x, y);
        if x == p.x && y == p.y {
            Cell { flag: CellFlag { is_search_around: true, ..c.flag }, ..c }
        } else if self.is_target(p, x, y) {
            self.visited_cell(p, x, y)
        } else {
            c
        }
    }

    /// The order in which an expansion of `p` pushes `q`: by priority (cost
    /// plus distance to the goal), then by the step's place in expansion
    /// order.
    pub open spec fn frontier_key(self, p: Point, q: Point) -> (int, int) {
        (
            self.cell_at(q).cost + chebyshev(q, self.goal),
            Self::step_to(p, q.x as int, q.y as int).rank(),
        )
    }

    /// `a` is pushed before `b`: it has the higher priority, or the same
    /// priority and the later step in expansion order. Pushed before means
    /// popped after, so the most promising target is popped first.
    pub open spec fn key_above(a: (int, int), b: (int, int)) -> bool {
        a.0 > b.0 || (a.0 == b.0 && a.1 > b.1)
    }

    /// The frontier entries above the first `n`.
    pub open spec fn pushed_after(self, n: int) -> Seq<Point> {
        self.provider.entries().subrange(n, self.provider.entries().len() as int)
    }

    /// The neighbours of `p` that an expansion reaches through the first `k`
    /// steps of expansion order, in that order.
    pub open spec fn targets_upto(self, p: Point, k: int) -> Seq<(usize, usize)>
        decreases k,
    {
        if k <= 0 {
            Seq::empty()
        } else {
            let d = Direction::of_rank(k - 1);
            let prev = self.targets_upto(p, k - 1);
            if self.can_move(p.x as int, p.y as int, d) {
                prev.push((p.spec_around(d).x, p.spec_around(d).y))
            } else {
                prev
            }
        }
    }

    /// The neighbours of `p` that an expansion reaches, in expansion order.
    pub open spec fn targets(self, p: Point) -> Seq<(usize, usize)> {
        self.targets_upto(p, 8)
    }

    /// What the first `k` steps contribute to the targets of `p`: each entry
    /// is a target on the grid, their steps come in strictly increasing
    /// order, and every target reached by one of those steps is listed.
    pub proof fn lemma_targets_upto(self, p: Point, k: int)
        requires
            point_in_grid(p),
            0 <= k <= 8,
        ensures
            self.targets_upto(p, k).len() <= k,
            forall|m: int|
                #![trigger self.targets_upto(p, k)[m]]
                0 <= m < self.targets_upto(p, k).len() ==> {
                    let t = self.targets_upto(p, k)[m];
                    &&& in_grid(t.0 as int, t.1 as int)
                    &&& self.is_target(p, t.0 as int, t.1 as int)
                    &&& Self::step_to(p, t.0 as int, t.1 as int).rank() < k
                },
            forall|m: int, l: int|
                #![trigger self.targets_upto(p, k)[m], self.targets_upto(p, k)[l]]
                0 <= m < l < self.targets_upto(p, k).len() ==> Self::step_to(
                    p,
                    self.targets_upto(p, k)[m].0 as int,
                    self.targets_upto(p, k)[m].1 as int,
                ).rank() < Self::step_to(
                    p,
                    self.targets_upto(p, k)[l].0 as int,
                    self.targets_upto(p, k)[l].1 as int,
                ).rank() && self.targets_upto(p, k)[m] != self.targets_upto(p, k)[l],
            forall|x: int, y: int|
                in_grid(x, y) ==> (#[trigger] self.targets_upto(p, k).contains((x as usize, y as usize))
                    <==> (self.is_target(p, x, y) && Self::step_to(p, x, y).rank() < k)),
        decreases k,
    {
        if k > 0 {
            self.lemma_targets_upto(p, k - 1);
            let d = Direction::of_rank(k - 1);
            let prev = self.targets_upto(p, k - 1);
            let cur = self.targets_upto(p, k);
            if self.can_move(p.x as int, p.y as int, d) {
                let q = p.spec_around(d);
                assert(Self::step_to(p, q.x as int, q.y as int) == d);
                assert forall|x: int, y: int| in_grid(x, y) implies (#[trigger] cur.contains(
                    (x as usize, y as usize),
                ) <==> (self.is_target(p, x, y) && Self::step_to(p, x, y).rank() < k)) by {
                    vstd::seq_lib::lemma_seq_contains_after_push(prev, (q.x, q.y), (x as usize, y as usize));
                    if Self::step_to(p, x, y).rank() == k - 1 {
                        assert(Self::step_to(p, x, y) == d);
                    }
                }
                assert forall|m: int| 0 <= m < cur.len() implies {
                    let t = #[trigger] cur[m];
                    &&& in_grid(t.0 as int, t.1 as int)
                    &&& self.is_target(p, t.0 as int, t.1 as int)
                    &&& Self::step_to(p, t.0 as int, t.1 as int).rank() < k
                } by {
                    if m < prev.len() {
                        assert(cur[m] == prev[m]);
                    }
                }
                assert forall|m: int, l: int|
                    #![trigger cur[m], cur[l]]
                    0 <= m < l < cur.len() implies Self::step_to(
                    p,
                    cur[m].0 as int,
                    cur[m].1 as int,
                ).rank() < Self::step_to(p, cur[l].0 as int, cur[l].1 as int).rank()
                    && cur[m] != cur[l] by {
                    assert(cur[m] == prev[m]);
                    if l < prev.len() {
                        assert(cur[l] == prev[l]);
                    }
                }
            } else {
                assert forall|x: int, y: int| in_grid(x, y) implies (#[trigger] cur.contains(
                    (x as usize, y as usize),
                ) <==> (self.is_target(p, x, y) && Self::step_to(p, x, y).rank() < k)) by {
                    if Self::step_to(p, x, y).rank() == k - 1 {
                        assert(Self::step_to(p, x, y) == d);
                    }
                }
            }
        }
    }

    /// The fields other than the cells and the frontier are those of `other`.
    pub open spec fn same_setting(self, other: Explorer) -> bool {
        self.start == other.start && self.goal == other.goal && self.min_cost == other.min_cost
    }

    /// `next` is `self` after an expansion of `p`. When the expansion cannot
    /// do its work nothing changes. Otherwise every cell is as
    /// `expanded_cell` says, the frontier keeps its entries and gains on top
    /// exactly the new targets of `p`, pushed in strictly decreasing order of
    /// `frontier_key`, and start, goal and reserved fields are unchanged.
    pub open spec fn expands_to(self, p: Point, next: Explorer) -> bool {
        if !self.can_expand(p) {
            next == self
        } else {
            let n = self.provider.entries().len() as int;
            let pushed = next.pushed_after(n);
            &&& forall|x: int, y: int|
                #![trigger next.cell(x, y)]
                in_grid(x, y) ==> next.cell(x, y) == self.expanded_cell(p, x, y)
            &&& next.same_setting(self)
            &&& next.provider.entries().len() >= n
            &&& next.provider.entries().subrange(0, n) == self.provider.entries()
            &&& forall|q: Point|
                #[trigger] pushed.contains(q) <==> point_in_grid(q) && self.is_new_target(
                    p,
                    q.x as int,
                    q.y as int,
                )
            &&& forall|m: int, l: int|
                #![trigger pushed[m], pushed[l]]
                0 <= m < l < pushed.len() ==> Self::key_above(
                    next.frontier_key(p, pushed[m]),
                    next.frontier_key(p, pushed[l]),
                )
        }
    }

    /// Nothing learnt is lost from `self` to `next`: every flag set on a
    /// cell stays set (the wall-presence bits aside, which a report may
    /// overwrite), and an available cost never grows.
    pub open spec fn progresses_to(self, next: Explorer) -> bool {
        forall|x: int, y: int|
            #![trigger next.cell(x, y)]
            in_grid(x, y) ==> self.cell(x, y).progresses_to(next.cell(x, y))
    }

    /// The internal invariant.
    pub open spec fn wf(self) -> bool {
        &&& self.start == Point { x: 0, y: 0 }
        &&& point_in_grid(self.goal)
        &&& self.provider.wf()
        &&& forall|i: int|
            0 <= i < self.provider.entries().len() ==> #[trigger] point_in_grid(
                self.provider.entries()[i],
            ) && self.cell_at(self.provider.entries()[i]).flag.is_provider_pushed
        &&& self.provider.entries().no_duplicates()
        &&& self.reached@.finite()
        &&& forall|k: int| #[trigger] self.reached@.contains(k) ==> 0 <= k < MAZE_WIDTH * MAZE_HEIGHT
        &&& forall|x: int, y: int|
            #![trigger self.cell(x, y)]
            in_grid(x, y) ==> (self.reached@.contains(cell_index(x, y))
                <==> self.cell(x, y).flag.is_cost_available)
        &&& forall|x: int, y: int|
            #![trigger self.cell(x, y)]
            in_grid(x, y) && self.cell(x, y).flag.is_cost_available ==> self.cell(x, y).cost
                < self.reached@.len()
    }

    /// The invariant survives a change of cells that keeps each cell's
    /// queued flag, cost availability and available cost.
    pub proof fn lemma_wf_same_costs(self, next: Explorer)
        requires
            self.wf(),
            next.same_setting(self),
            next.start == self.start,
            next.provider == self.provider,
            next.reached == self.reached,
            forall|x: int, y: int|
                #![trigger next.cell(x, y)]
                in_grid(x, y) ==> {
                    &&& next.cell(x, y).flag.is_provider_pushed == self.cell(x, y).flag.is_provider_pushed
                    &&& next.cell(x, y).flag.is_cost_available == self.cell(x, y).flag.is_cost_available
                    &&& next.cell(x, y).cost == self.cell(x, y).cost
                },
        ensures
            next.wf(),
    {
        assert forall|i: int| 0 <= i < next.provider.entries().len() implies #[trigger] point_in_grid(
            next.provider.entries()[i],
        ) && next.cell_at(next.provider.entries()[i]).flag.is_provider_pushed by {
            let e = self.provider.entries()[i];
            assert(point_in_grid(e));
            let _ = self.cell(e.x as int, e.y as int);
            let _ = next.cell(e.x as int, e.y as int);
        }
        assert forall|x: int, y: int| in_grid(x, y) implies (next.reached@.contains(cell_index(x, y))
            <==> #[trigger] next.cell(x, y).flag.is_cost_available) by {
            let _ = self.cell(x, y);
        }
        assert forall|x: int, y: int| in_grid(x, y) && #[trigger] next.cell(x, y).flag.is_cost_available
            implies next.cell(x, y).cost < next.reached@.len() by {
            let _ = self.cell(x, y);
        }
    }

    /// An available cost is below the number of grid cells.
    pub proof fn lemma_cost_bound(self, x: int, y: int)
        requires
            self.wf(),
            in_grid(x, y),
            self.cell(x, y).flag.is_cost_available,
        ensures
            self.cell(x, y).cost < MAZE_WIDTH * MAZE_HEIGHT,
            self.reached@.len() <= MAZE_WIDTH * MAZE_HEIGHT,
    {
        let all = vstd::set_lib::set_int_range(0, MAZE_WIDTH * MAZE_HEIGHT);
        vstd::set_lib::lemma_int_range(0, MAZE_WIDTH * MAZE_HEIGHT);
        assert(self.reached@.subset_of(all));
        vstd::set_lib::lemma_len_subset(self.reached@, all);
    }

    /// Whether the up edge of `(x, y)` is known to be open.
    fn up_open_at(&self, x: usize, y: usize) -> (r: bool)
        requires
            x < MAZE_WIDTH,
            y < MAZE_HEIGHT,
        ensures
            r == self.up_open(x as int, y as int),
    {
        self.cells[y][x].flag.is_updated_up_wall && !self.cells[y][x].flag.is_exists_up_wall
    }

    /// Whether the right edge of `(x, y)` is known to be open.
    fn right_open_at(&self, x: usize, y: usize) -> (r: bool)
        requires
            x < MAZE_WIDTH,
            y < MAZE_HEIGHT,
        ensures
            r == self.right_open(x as int, y as int),
    {
        self.cells[y][x].flag.is_updated_right_wall && !self.cells[y][x].flag.is_exists_right_wall
    }

    /// Whether the step `d` from `p` is passable on current knowledge.
    pub fn can_move_at(&self, p: Point, d: Direction) -> (r: bool)
        requires
            point_in_grid(p),
        ensures
            r == self.can_move(p.x as int, p.y as int, d),
    {
        let x = p.x;
        let y = p.y;
        let up = y + 1 < MAZE_HEIGHT && self.up_open_at(x, y);
        let right = x + 1 < MAZE_WIDTH && self.right_open_at(x, y);
        let down = y > 0 && self.up_open_at(x, y - 1);
        let left = x > 0 && self.right_open_at(x - 1, y);
        match d {
            Direction::NoDir => false,
            Direction::Up => up,
            Direction::Right => right,
            Direction::Down => down,
            Direction::Left => left,
            Direction::UpLeft => x > 0 && y + 1 < MAZE_HEIGHT && ((up && self.right_open_at(x - 1, y + 1))
                || (left && self.up_open_at(x - 1, y))),
            Direction::UpRight => x + 1 < MAZE_WIDTH && y + 1 < MAZE_HEIGHT && ((up
                && self.right_open_at(x, y + 1)) || (right && self.up_open_at(x + 1, y))),
            Direction::DownLeft => x > 0 && y > 0 && ((down && self.right_open_at(x - 1, y - 1)) || (left
                && self.up_open_at(x - 1, y - 1))),
            Direction::DownRight => x + 1 < MAZE_WIDTH && y > 0 && ((down && self.right_open_at(x, y - 1))
                || (right && self.up_open_at(x + 1, y - 1))),
        }
    }

    /// Lists the neighbours of `p` that an expansion reaches, in expansion
    /// order.
    pub(crate) fn collect_targets(&self, p: Point) -> (r: Targets)
        requires
            point_in_grid(p),
        ensures
            targets_of(r) == self.targets(p),
    {
        let mut targets = Targets::new();
        let mut k: usize = 0;
        while k < 8
            invariant
                k <= 8,
                point_in_grid(p),
                targets_of(targets) == self.targets_upto(p, k as int),
            decreases 8 - k,
        {
            proof {
                self.lemma_targets_upto(p, k as int);
            }
            let d = Direction::from_rank(k);
            if self.can_move_at(p, d) {
                let q = p.get_around(d);
                targets.push(q.x, q.y);
            }
            k = k + 1;
        }
        targets
    }

    /// Visiting one cell keeps the invariant and loses nothing learnt.
    pub proof fn lemma_visit_one(
        self,
        next: Explorer,
        x: int,
        y: int,
        cost: usize,
        from: SearchInfo,
        mark: bool,
    )
        requires
            self.wf(),
            in_grid(x, y),
            cost <= self.reached@.len(),
            next.same_setting(self),
            next.start == self.start,
            next.provider == self.provider,
            next.reached@ == if self.cell(x, y).flag.is_cost_available {
                self.reached@
            } else {
                self.reached@.insert(cell_index(x, y))
            },
            forall|i: int, j: int|
                #![trigger next.cell(i, j)]
                in_grid(i, j) ==> next.cell(i, j) == if i == x && j == y {
                    Self::mark_queued(self.cell(x, y).relaxed(cost, from), mark)
                } else {
                    self.cell(i, j)
                },
        ensures
            next.wf(),
            self.progresses_to(next),
            next.reached@.len() >= self.reached@.len(),
    {
        assert(!self.cell(x, y).flag.is_cost_available ==> !self.reached@.contains(cell_index(x, y)));
        assert forall|i: int| 0 <= i < next.provider.entries().len() implies #[trigger] point_in_grid(
            next.provider.entries()[i],
        ) && next.cell_at(next.provider.entries()[i]).flag.is_provider_pushed by {
            let e = self.provider.entries()[i];
            assert(point_in_grid(e));
            let _ = self.cell(e.x as int, e.y as int);
            let _ = next.cell(e.x as int, e.y as int);
        }
        assert forall|i: int, j: int| in_grid(i, j) implies (next.reached@.contains(cell_index(i, j))
            <==> #[trigger] next.cell(i, j).flag.is_cost_available) by {
            let _ = self.cell(i, j);
        }
        assert forall|i: int, j: int| in_grid(i, j) && #[trigger] next.cell(i, j).flag.is_cost_available
            implies next.cell(i, j).cost < next.reached@.len() by {
            let _ = self.cell(i, j);
        }
        assert forall|i: int, j: int| in_grid(i, j) implies self.cell(i, j).progresses_to(
            #[trigger] next.cell(i, j),
        ) by {
            let _ = self.cell(i, j);
        }
    }

    /// Replaces cell `(x, y)` by `c`.
    pub(crate) fn set_cell(&mut self, x: usize, y: usize, c: Cell)
        requires
            x < MAZE_WIDTH,
            y < MAZE_HEIGHT,
        ensures
            forall|i: int, j: int|
                #![trigger final(self).cell(i, j)]
                in_grid(i, j) ==> final(self).cell(i, j) == if i == x && j == y {
                    c
                } else {
                    old(self).cell(i, j)
                },
            final(self).same_setting(*old(self)),
            final(self).provider == old(self).provider,
            final(self).reached == old(self).reached,
    {
        self.cells[y][x] = c;
    }
}


impl Default for Explorer {
    /// A grid with nothing known, goal at the origin and an empty frontier.
    fn default() -> (r: Explorer)
        ensures
            r.wf(),
            r.start == (Point { x: 0, y: 0 }),
            r.goal == (Point { x: 0, y: 0 }),
            r.min_cost is None,
            r.provider.entries() == Seq::<Point>::empty(),
            forall|x: int, y: int|
                #![trigger r.cell(x, y)]
                in_grid(x, y) ==> r.cell(x, y) == Cell::spec_default(),
    {
        let r = Explorer {
            cells: [[Cell::default(); MAZE_WIDTH]; MAZE_HEIGHT],
            start: Point { x: 0, y: 0 },
            goal: Point { x: 0, y: 0 },
            provider: SearchInfoProvider::default(),
            min_cost: None,
            reached: Ghost(Set::empty()),
        };
        r
    }
}

impl Explorer {
    /// A fresh engine heading for `goal`: the outer top and right edges are
    /// known walls, every other edge is unknown, the origin has cost 0 and
    /// counts as queued, and the frontier is empty.
    pub fn new(goal: Point) -> (r: Explorer)
        requires
            point_in_grid(goal),
        ensures
            r.wf(),
            r.start == (Point { x: 0, y: 0 }),
            r.goal == goal,
            r.min_cost is None,
            r.provider.entries() == Seq::<Point>::empty(),
            forall|x: int, y: int|
                #![trigger r.cell(x, y)]
                in_grid(x, y) ==> r.cell(x, y) == initial_cell(x, y),
    {
        let mut dst = Explorer {
            cells: [[Cell::default(); MAZE_WIDTH]; MAZE_HEIGHT],
            start: Point { x: 0, y: 0 },
            goal,
            provider: SearchInfoProvider::default(),
            min_cost: None,
            reached: Ghost(Set::empty()),
        };
        let mut j: usize = 0;
        while j < MAZE_HEIGHT
            invariant
                j <= MAZE_HEIGHT,
                dst.start == (Point { x: 0, y: 0 }),
                dst.goal == goal,
                dst.min_cost is None,
                dst.provider.wf(),
                dst.provider.entries() == Seq::<Point>::empty(),
                forall|x: int, y: int|
                    #![trigger dst.cell(x, y)]
                    in_grid(x, y) ==> dst.cell(x, y) == (Cell {
                        flag: CellFlag {
                            is_exists_right_wall: x == MAZE_WIDTH - 1 && y < j,
                            is_updated_right_wall: x == MAZE_WIDTH - 1 && y < j,
                            ..CellFlag::spec_empty()
                        },
                        ..Cell::spec_default()
                    }),
            decreases MAZE_HEIGHT - j,
        {
            let ghost prev = dst;
            dst.cells[j][MAZE_WIDTH - 1].flag.is_exists_right_wall = true;
            dst.cells[j][MAZE_WIDTH - 1].flag.is_updated_right_wall = true;
            j = j + 1;
            assert forall|x: int, y: int| in_grid(x, y) implies #[trigger] dst.cell(x, y) == (Cell {
                flag: CellFlag {
                    is_exists_right_wall: x == MAZE_WIDTH - 1 && y < j,
                    is_updated_right_wall: x == MAZE_WIDTH - 1 && y < j,
                    ..CellFlag::spec_empty()
                },
                ..Cell::spec_default()
            }) by {
                let _ = prev.cell(x, y);
            }
        }
        let mut i: usize = 0;
        while i < MAZE_WIDTH
            invariant
                i <= MAZE_WIDTH,
                dst.start == (Point { x: 0, y: 0 }),
                dst.goal == goal,
                dst.min_cost is None,
                dst.provider.wf(),
                dst.provider.entries() == Seq::<Point>::empty(),
                forall|x: int, y: int|
                    #![trigger dst.cell(x, y)]
                    in_grid(x, y) ==> dst.cell(x, y) == (Cell {
                        flag: CellFlag {
                            is_exists_right_wall: x == MAZE_WIDTH - 1,
                            is_updated_right_wall: x == MAZE_WIDTH - 1,
                            is_exists_up_wall: y == MAZE_HEIGHT - 1 && x < i,
                            is_updated_up_wall: y == MAZE_HEIGHT - 1 && x < i,
                            ..CellFlag::spec_empty()
                        },
                        ..Cell::spec_default()
                    }),
            decreases MAZE_WIDTH - i,
        {
            let ghost prev = dst;
            dst.cells[MAZE_HEIGHT - 1][i].flag.is_exists_up_wall = true;
            dst.cells[MAZE_HEIGHT - 1][i].flag.is_updated_up_wall = true;
            i = i + 1;
            assert forall|x: int, y: int| in_grid(x, y) implies #[trigger] dst.cell(x, y) == (Cell {
                flag: CellFlag {
                    is_exists_right_wall: x == MAZE_WIDTH - 1,
                    is_updated_right_wall: x == MAZE_WIDTH - 1,
                    is_exists_up_wall: y == MAZE_HEIGHT - 1 && x < i,
                    is_updated_up_wall: y == MAZE_HEIGHT - 1 && x < i,
                    ..CellFlag::spec_empty()
                },
                ..Cell::spec_default()
            }) by {
                let _ = prev.cell(x, y);
            }
        }
        let ghost prev = dst;
        dst.cells[0][0].cost = 0;
        dst.cells[0][0].flag.is_cost_available = true;
        dst.cells[0][0].flag.is_provider_pushed = true;
        dst.reached = Ghost(Set::empty().insert(cell_index(0, 0)));
        proof {
            assert(dst.reached@.len() == 1);
            assert forall|x: int, y: int| in_grid(x, y) implies #[trigger] dst.cell(x, y) == initial_cell(x, y) by {
                let _ = prev.cell(x, y);
            }
        }
        dst
    }
}

} // verus!
