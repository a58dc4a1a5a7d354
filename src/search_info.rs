use vstd::prelude::*;
use crate::explorer::{cell_index, in_grid, point_in_grid, Explorer, MAZE_HEIGHT, MAZE_WIDTH};
use crate::direction::Direction;
use crate::point::Point;
use crate::targets::{targets_of, Targets};

verus! {

/// Number of entries the frontier store can hold: one per grid cell.
pub const SEARCH_INFO_STORE_SIZE: usize = MAZE_WIDTH * MAZE_HEIGHT;

/// A coordinate packed into one byte per axis; `0xff` on both axes is the
/// sentinel for "no coordinate".
#[derive(Copy, Clone, Debug, PartialEq, Eq, Structural)]
pub struct SearchInfo {
    pub x: u8,
    pub y: u8,
}

impl SearchInfo {
    /// The "no coordinate" sentinel.
    pub open spec fn spec_none() -> SearchInfo {
        SearchInfo { x: 0xff, y: 0xff }
    }

    /// The packed form of `p`.
    pub open spec fn spec_from_point(p: Point) -> SearchInfo {
        SearchInfo { x: p.x as u8, y: p.y as u8 }
    }

    /// The coordinate held.
    pub open spec fn spec_point(self) -> Point {
        Point { x: self.x as usize, y: self.y as usize }
    }

    /// Packs `p`, whose coordinates must fit in a byte.
    pub fn from_point(p: Point) -> (r: SearchInfo)
        requires
            p.x < 256,
            p.y < 256,
        ensures
            r == SearchInfo::spec_from_point(p),
            r.spec_point() == p,
    {
        SearchInfo { x: p.x as u8, y: p.y as u8 }
    }

    /// Unpacks the coordinate.
    pub fn to_point(&self) -> (r: Point)
        ensures
            r == self.spec_point(),
    {
        Point { x: self.x as usize, y: self.y as usize }
    }
}

impl Default for SearchInfo {
    fn default() -> (r: SearchInfo)
        ensures
            r == SearchInfo::spec_none(),
    {
        SearchInfo { x: 0xff, y: 0xff }
    }
}

/// The frontier: a fixed-capacity stack of packed coordinates.
pub struct SearchInfoProvider {
    pub datas: [SearchInfo; SEARCH_INFO_STORE_SIZE],
    /// Number of entries held; the top of the stack is `datas[wr_ptr - 1]`.
    pub wr_ptr: usize,
}

impl SearchInfoProvider {
    pub open spec fn wf(self) -> bool {
        self.wr_ptr <= SEARCH_INFO_STORE_SIZE
    }

    /// The entries held, bottom first.
    pub open spec fn entries(self) -> Seq<Point> {
        Seq::new(self.wr_ptr as nat, |i: int| self.datas[i].spec_point())
    }

    /// An empty store.
    pub fn new() -> (r: SearchInfoProvider)
        ensures
            r.wf(),
            r.entries() == Seq::<Point>::empty(),
    {
        SearchInfoProvider { datas: [SearchInfo::default(); SEARCH_INFO_STORE_SIZE], wr_ptr: 0 }
    }

    /// Number of entries held.
    pub fn get_count(&self) -> (r: usize)
        ensures
            r == self.entries().len(),
    {
        self.wr_ptr
    }

    /// Number of entries that can still be pushed.
    pub fn get_free(&self) -> (r: usize)
        requires
            self.wf(),
        ensures
            r == SEARCH_INFO_STORE_SIZE - self.entries().len(),
    {
        SEARCH_INFO_STORE_SIZE - self.wr_ptr
    }

    /// Removes every entry.
    pub fn clear(&mut self)
        ensures
            final(self).wf(),
            final(self).entries() == Seq::<Point>::empty(),
    {
        self.wr_ptr = 0;
    }

    /// Pushes `p` on top; fails, changing nothing, when the store is full.
    pub fn push(&mut self, p: Point) -> (r: bool)
        requires
            old(self).wf(),
            p.x < 256,
            p.y < 256,
        ensures
            final(self).wf(),
            r == (old(self).entries().len() < SEARCH_INFO_STORE_SIZE),
            r ==> final(self).entries() == old(self).entries().push(p),
            !r ==> final(self).entries() == old(self).entries(),
    {
        if self.wr_ptr < SEARCH_INFO_STORE_SIZE {
            let data = SearchInfo::from_point(p);
            let ghost before = self.entries();
            self.datas[self.wr_ptr] = data;
            self.wr_ptr = self.wr_ptr + 1;
            assert(self.entries() =~= before.push(p));
            true
        } else {
            false
        }
    }

    /// Removes and returns the most recently pushed entry, or `None` when
    /// the store is empty.
    pub fn pop(&mut self) -> (r: Option<Point>)
        requires
            old(self).wf(),
        ensures
            final(self).wf(),
            old(self).entries().len() == 0 ==> r is None && final(self).entries() == old(self).entries(),
            old(self).entries().len() > 0 ==> r == Some(old(self).entries().last())
                && final(self).entries() == old(self).entries().drop_last(),
    {
        if self.wr_ptr > 0 {
            let ghost before = self.entries();
            self.wr_ptr = self.wr_ptr - 1;
            let data = self.datas[self.wr_ptr];
            assert(self.entries() =~= before.drop_last());
            Some(data.to_point())
        } else {
            None
        }
    }
}

impl Default for SearchInfoProvider {
    fn default() -> (r: SearchInfoProvider)
        ensures
            r.wf(),
            r.entries() == Seq::<Point>::empty(),
    {
        SearchInfoProvider::new()
    }
}

/// The most neighbours one expansion can reach.
pub const TARGET_NUM: usize = 8;

/// The point with coordinates `t`.
pub open spec fn as_point(t: (usize, usize)) -> Point {
    Point { x: t.0, y: t.1 }
}

/// Candidate `a` is pushed before candidate `b`: higher priority first, and
/// among equal priorities the later candidate first.
pub open spec fn ranks_above(prio: [usize; 8], a: int, b: int) -> bool {
    prio[a] > prio[b] || (prio[a] == prio[b] && a > b)
}

/// Candidate `k` is still to be pushed.
pub open spec fn pending(fresh: [bool; 8], emitted: [bool; 8], k: int) -> bool {
    fresh[k] && !emitted[k]
}

/// The pending candidate among the first `n` that ranks above every other
/// pending one, or 8 when none is pending.
fn best_pending(fresh: &[bool; 8], emitted: &[bool; 8], prio: &[usize; 8], n: usize) -> (r: usize)
    requires
        n <= 8,
    ensures
        r == 8 ==> forall|k: int| 0 <= k < n ==> !#[trigger] pending(*fresh, *emitted, k),
        r != 8 ==> {
            &&& r < n
            &&& pending(*fresh, *emitted, r as int)
            &&& forall|k: int|
                0 <= k < n && k != r && #[trigger] pending(*fresh, *emitted, k) ==> ranks_above(
                    *prio,
                    r as int,
                    k,
                )
        },
{
    let mut best: usize = 8;
    let mut k: usize = 0;
    while k < n
        invariant
            n <= 8,
            k <= n,
            best == 8 ==> forall|j: int| 0 <= j < k ==> !#[trigger] pending(*fresh, *emitted, j),
            best != 8 ==> {
                &&& best < k
                &&& pending(*fresh, *emitted, best as int)
                &&& forall|j: int|
                    0 <= j < k && j != best && #[trigger] pending(*fresh, *emitted, j) ==> ranks_above(
                        *prio,
                        best as int,
                        j,
                    )
            },
        decreases n - k,
    {
        if fresh[k] && !emitted[k] && (best == 8 || prio[k] >= prio[best]) {
            best = k;
        }
        k = k + 1;
    }
    best
}

/// Distinct indices below `n` that miss one of them number fewer than `n`.
proof fn lemma_room_left(order: Seq<int>, n: int, k: int)
    requires
        order.no_duplicates(),
        forall|j: int| 0 <= j < order.len() ==> 0 <= #[trigger] order[j] < n,
        0 <= k < n,
        !order.contains(k),
    ensures
        order.len() < n,
{
    let all = vstd::set_lib::set_int_range(0, n).remove(k);
    vstd::set_lib::lemma_int_range(0, n);
    order.unique_seq_to_set();
    assert forall|v: int| order.to_set().contains(v) implies all.contains(v) by {
        let j = choose|j: int| 0 <= j < order.len() && order[j] == v;
    }
    vstd::set_lib::lemma_len_subset(order.to_set(), all);
}

impl Explorer {
    /// Takes the next cell to visit off the frontier, the most recently
    /// pushed one, or `None` when the frontier is empty.
    pub fn get_next(&mut self) -> (r: Option<Point>)
        requires
            old(self).wf(),
        ensures
            final(self).wf(),
            old(self).progresses_to(*final(self)),
            final(self).cells == old(self).cells,
            final(self).same_setting(*old(self)),
            old(self).provider.entries().len() == 0 ==> r is None && final(self).provider.entries()
                == old(self).provider.entries(),
            old(self).provider.entries().len() > 0 ==> {
                &&& r == Some(old(self).provider.entries().last())
                &&& point_in_grid(old(self).provider.entries().last())
                &&& final(self).provider.entries() == old(self).provider.entries().drop_last()
            },
    {
        let r = self.provider.pop();
        proof {
            let e = old(self).provider.entries();
            assert forall|x: int, y: int| in_grid(x, y) implies #[trigger] self.cell(x, y) == old(self).cell(x, y) by {}
            if e.len() > 0 {
                assert(point_in_grid(e[e.len() - 1]));
                assert forall|i: int| 0 <= i < self.provider.entries().len() implies #[trigger] point_in_grid(
                    self.provider.entries()[i],
                ) && self.cell_at(self.provider.entries()[i]).flag.is_provider_pushed by {
                    assert(self.provider.entries()[i] == e[i]);
                    assert(point_in_grid(e[i]));
                }
                assert forall|i: int, j: int| 0 <= i < j < self.provider.entries().len() implies
                    self.provider.entries()[i] != self.provider.entries()[j] by {
                    assert(self.provider.entries()[i] == e[i]);
                    assert(self.provider.entries()[j] == e[j]);
                }
            }
        }
        r
    }

    /// Expands `p`, whose cost must be available: every passable neighbour
    /// has its cost relaxed to the cost of `p` plus one, the neighbours never
    /// expanded nor queued before are marked queued and pushed on the
    /// frontier in decreasing order of priority (cost plus distance to the
    /// goal), so that the most promising one is popped first, and `p` is
    /// marked expanded. When `p` is off the grid, has no available cost, or
    /// the frontier has fewer than eight free slots, nothing changes.
    pub fn fetch_targets(&mut self, p: Point)
        requires
            old(self).wf(),
        ensures
            final(self).wf(),
            old(self).progresses_to(*final(self)),
            old(self).expands_to(p, *final(self)),
    {
        if p.x >= MAZE_WIDTH || p.y >= MAZE_HEIGHT {
            return;
        }
        if !self.cells[p.y][p.x].flag.is_cost_available {
            return;
        }
        if TARGET_NUM > self.provider.get_free() {
            return;
        }
        let ghost start = *self;
        proof {
            self.lemma_cost_bound(p.x as int, p.y as int);
            self.lemma_targets_upto(p, 8);
        }
        let current_cost = self.cells[p.y][p.x].cost + 1;
        let targets = self.collect_targets(p);
        let (fresh, prio) = self.relax_targets(p, &targets, current_cost);
        let ghost mid = *self;
        let ghost items = targets_of(targets);
        proof {
            assert forall|k: int|
                #![trigger fresh[k]]
                0 <= k < items.len() && fresh[k] implies {
                    let q = as_point(items[k]);
                    &&& prio[k] == mid.frontier_key(p, q).0
                    &&& mid.cell_at(q).flag.is_provider_pushed
                    &&& !mid.provider.entries().contains(q)
                } by {
                let q = as_point(items[k]);
                assert(start.is_new_target(p, q.x as int, q.y as int));
                let _ = mid.cell(q.x as int, q.y as int);
                if mid.provider.entries().contains(q) {
                    let j = choose|j: int|
                        0 <= j < mid.provider.entries().len() && mid.provider.entries()[j] == q;
                    assert(point_in_grid(start.provider.entries()[j]));
                }
            }
        }
        let order = self.push_in_order(p, &targets, &fresh, &prio);
        let ghost mid2 = *self;
        self.cells[p.y][p.x].flag.is_search_around = true;
        proof {
            let n = start.provider.entries().len() as int;
            let pushed = self.pushed_after(n);
            assert(pushed == mid2.pushed_after(n));
            assert(Explorer::step_to(p, p.x as int, p.y as int) == Direction::NoDir);
            assert forall|x: int, y: int| in_grid(x, y) implies #[trigger] self.cell(x, y)
                == start.expanded_cell(p, x, y) && start.cell(x, y).progresses_to(self.cell(x, y)) by {
                let _ = mid.cell(x, y);
                let _ = mid2.cell(x, y);
            }
            mid2.lemma_wf_same_costs(*self);
            assert forall|q: Point| #[trigger] pushed.contains(q) <==> point_in_grid(q)
                && start.is_new_target(p, q.x as int, q.y as int) by {
                if pushed.contains(q) {
                    let m = choose|m: int| 0 <= m < pushed.len() && pushed[m] == q;
                    let k = order@[m];
                    assert(fresh[k]);
                }
                if point_in_grid(q) && start.is_new_target(p, q.x as int, q.y as int) {
                    assert(Explorer::step_to(p, q.x as int, q.y as int).rank() < 8);
                    assert(start.targets_upto(p, 8).contains(((q.x as int) as usize, (q.y as int) as usize)));
                    assert(items.contains((q.x, q.y)));
                    let k = choose|k: int| 0 <= k < items.len() && items[k] == (q.x, q.y);
                    assert(fresh[k]);
                    assert(as_point(items[k]) == q);
                }
            }
            assert forall|m: int, l: int|
                #![trigger pushed[m], pushed[l]]
                0 <= m < l < pushed.len() implies Explorer::key_above(
                self.frontier_key(p, pushed[m]),
                self.frontier_key(p, pushed[l]),
            ) by {
                let a = as_point(items[order@[m]]);
                let b = as_point(items[order@[l]]);
                let _ = self.cell(a.x as int, a.y as int);
                let _ = self.cell(b.x as int, b.y as int);
                let _ = mid.cell(a.x as int, a.y as int);
                let _ = mid.cell(b.x as int, b.y as int);
                assert(Explorer::key_above(mid.frontier_key(p, pushed[m]), mid.frontier_key(p, pushed[l])));
            }
        }
    }

    /// Relaxes every target of `p` to the cost of `p` plus one and marks the
    /// new ones queued; reports for the `k`-th target whether it is new and,
    /// if so, its priority: relaxed cost plus distance to the goal.
    #[verifier::rlimit(60)]
    fn relax_targets(&mut self, p: Point, targets: &Targets, cost: usize) -> (r: ([bool; 8], [usize; 8]))
        requires
            old(self).wf(),
            point_in_grid(p),
            old(self).cell_at(p).flag.is_cost_available,
            cost == old(self).cell_at(p).cost + 1,
            targets_of(*targets) == old(self).targets(p),
        ensures
            final(self).wf(),
            old(self).progresses_to(*final(self)),
            final(self).same_setting(*old(self)),
            final(self).provider == old(self).provider,
            forall|x: int, y: int|
                #![trigger final(self).cell(x, y)]
                in_grid(x, y) ==> final(self).cell(x, y) == if old(self).is_target(p, x, y) {
                    old(self).visited_cell(p, x, y)
                } else {
                    old(self).cell(x, y)
                },
            forall|k: int|
                #![trigger r.0[k]]
                0 <= k < targets_of(*targets).len() ==> {
                    let t = targets_of(*targets)[k];
                    let q = Point { x: t.0, y: t.1 };
                    &&& r.0[k] == old(self).is_new_target(p, t.0 as int, t.1 as int)
                    &&& r.0[k] ==> r.1[k] == final(self).frontier_key(p, q).0
                },
    {
        let ghost start = *self;
        let ghost items = targets_of(*targets);
        proof {
            start.lemma_targets_upto(p, 8);
            start.lemma_cost_bound(p.x as int, p.y as int);
        }
        let from = SearchInfo::from_point(p);
        let mut fresh: [bool; 8] = [false; 8];
        let mut prio: [usize; 8] = [0; 8];
        let n = targets.len();
        let mut i: usize = 0;
        while i < n
            invariant
                n == items.len(),
                n <= 8,
                i <= n,
                targets_of(*targets) == items,
                items == start.targets(p),
                start.wf(),
                point_in_grid(p),
                self.wf(),
                start.progresses_to(*self),
                self.same_setting(start),
                self.provider == start.provider,
                from == SearchInfo::spec_from_point(p),
                cost == start.cell_at(p).cost + 1,
                cost <= start.reached@.len(),
                cost <= MAZE_WIDTH * MAZE_HEIGHT,
                start.reached@.len() <= self.reached@.len(),
                forall|x: int, y: int|
                    #![trigger self.cell(x, y)]
                    in_grid(x, y) ==> self.cell(x, y) == if items.subrange(0, i as int).contains(
                        (x as usize, y as usize),
                    ) {
                        start.visited_cell(p, x, y)
                    } else {
                        start.cell(x, y)
                    },
                forall|k: int| i <= k < 8 ==> !#[trigger] fresh[k],
                forall|k: int|
                    #![trigger fresh[k]]
                    0 <= k < i ==> {
                        let t = items[k];
                        &&& fresh[k] == start.is_new_target(p, t.0 as int, t.1 as int)
                        &&& fresh[k] ==> prio[k] == self.frontier_key(p, Point { x: t.0, y: t.1 }).0
                    },
            decreases n - i,
        {
            let (tx, ty) = targets.get(i);
            let ghost before = *self;
            proof {
                start.lemma_targets_upto(p, 8);
                assert(!items.subrange(0, i as int).contains((tx, ty))) by {
                    if items.subrange(0, i as int).contains((tx, ty)) {
                        let m = choose|m: int| 0 <= m < i && items.subrange(0, i as int)[m] == (tx, ty);
                        assert(items[m] == items[i as int]);
                    }
                }
                assert(self.cell(tx as int, ty as int) == start.cell(tx as int, ty as int));
            }
            let c = self.cells[ty][tx];
            let was_new = !c.flag.is_search_around && !c.flag.is_provider_pushed;
            let mut c2 = c;
            c2.update_cost(cost, from);
            if was_new {
                c2.flag.is_provider_pushed = true;
            }
            self.set_cell(tx, ty, c2);
            let ghost mid = *self;
            if !c.flag.is_cost_available {
                self.reached = Ghost(self.reached@.insert(cell_index(tx as int, ty as int)));
            }
            proof {
                assert forall|x: int, y: int| in_grid(x, y) implies #[trigger] self.cell(x, y) == mid.cell(x, y) by {}
                assert(c == before.cell(tx as int, ty as int));
                assert(c2 == Explorer::mark_queued(c.relaxed(cost, from), was_new));
                before.lemma_visit_one(*self, tx as int, ty as int, cost, from, was_new);
                assert(c2.cost <= cost);
            }
            if was_new {
                let d = Point { x: tx, y: ty }.distance(self.goal);
                fresh[i] = true;
                prio[i] = c2.cost + d;
            }
            proof {
                let sub = items.subrange(0, i as int);
                let sub1 = items.subrange(0, i + 1);
                assert(sub1 =~= sub.push((tx, ty)));
                assert forall|x: int, y: int| in_grid(x, y) implies #[trigger] self.cell(x, y) == if sub1.contains(
                    (x as usize, y as usize),
                ) {
                    start.visited_cell(p, x, y)
                } else {
                    start.cell(x, y)
                } by {
                    vstd::seq_lib::lemma_seq_contains_after_push(sub, (tx, ty), (x as usize, y as usize));
                    let _ = before.cell(x, y);
                }
                assert forall|k: int| 0 <= k < i + 1 implies {
                    let t = items[k];
                    &&& #[trigger] fresh[k] == start.is_new_target(p, t.0 as int, t.1 as int)
                    &&& fresh[k] ==> prio[k] == self.frontier_key(p, Point { x: t.0, y: t.1 }).0
                } by {
                    let t = items[k];
                    if k < i {
                        assert(items[k] != items[i as int]);
                        let _ = before.cell(t.0 as int, t.1 as int);
                    } else {
                        assert(t == (tx, ty));
                        assert(fresh[k] == was_new);
                        assert(start.is_target(p, tx as int, ty as int));
                        assert(self.cell(tx as int, ty as int) == c2);
                    }
                }
            }
            i = i + 1;
        }
        proof {
            assert(items.subrange(0, n as int) =~= items);
        }
        (fresh, prio)
    }

    /// Pushes the new targets, flagged in `fresh`, highest rank first (see
    /// `ranks_above`), so that the most promising one ends on top.
    fn push_in_order(&mut self, p: Point, targets: &Targets, fresh: &[bool; 8], prio: &[usize; 8]) -> (order: Ghost<Seq<int>>)
        requires
            old(self).wf(),
            old(self).provider.entries().len() + 8 <= SEARCH_INFO_STORE_SIZE,
            targets_of(*targets).len() <= 8,
            forall|k: int|
                #![trigger targets_of(*targets)[k]]
                0 <= k < targets_of(*targets).len() ==> point_in_grid(as_point(targets_of(*targets)[k])),
            forall|k: int, l: int|
                #![trigger targets_of(*targets)[k], targets_of(*targets)[l]]
                0 <= k < l < targets_of(*targets).len() ==> Explorer::step_to(
                    p,
                    targets_of(*targets)[k].0 as int,
                    targets_of(*targets)[k].1 as int,
                ).rank() < Explorer::step_to(
                    p,
                    targets_of(*targets)[l].0 as int,
                    targets_of(*targets)[l].1 as int,
                ).rank(),
            forall|k: int|
                #![trigger fresh[k]]
                0 <= k < targets_of(*targets).len() && fresh[k] ==> {
                    let q = as_point(targets_of(*targets)[k]);
                    &&& prio[k] == old(self).frontier_key(p, q).0
                    &&& old(self).cell_at(q).flag.is_provider_pushed
                    &&& !old(self).provider.entries().contains(q)
                },
        ensures
            final(self).wf(),
            final(self).cells == old(self).cells,
            final(self).same_setting(*old(self)),
            final(self).reached == old(self).reached,
            final(self).provider.entries().len() >= old(self).provider.entries().len(),
            final(self).provider.entries().subrange(0, old(self).provider.entries().len() as int)
                == old(self).provider.entries(),
            order@.len() == final(self).pushed_after(old(self).provider.entries().len() as int).len(),
            forall|m: int|
                #![trigger order@[m]]
                0 <= m < order@.len() ==> {
                    &&& 0 <= order@[m] < targets_of(*targets).len()
                    &&& fresh[order@[m]]
                    &&& final(self).pushed_after(old(self).provider.entries().len() as int)[m]
                        == as_point(targets_of(*targets)[order@[m]])
                },
            forall|k: int|
                #![trigger fresh[k]]
                0 <= k < targets_of(*targets).len() && fresh[k] ==> final(self).pushed_after(
                    old(self).provider.entries().len() as int,
                ).contains(as_point(targets_of(*targets)[k])),
            forall|m: int, l: int|
                #![trigger final(self).pushed_after(old(self).provider.entries().len() as int)[m], final(self).pushed_after(old(self).provider.entries().len() as int)[l]]
                0 <= m < l < final(self).pushed_after(old(self).provider.entries().len() as int).len()
                    ==> Explorer::key_above(
                    old(self).frontier_key(
                        p,
                        final(self).pushed_after(old(self).provider.entries().len() as int)[m],
                    ),
                    old(self).frontier_key(
                        p,
                        final(self).pushed_after(old(self).provider.entries().len() as int)[l],
                    ),
                ),
    {
        let ghost start = *self;
        let ghost base = self.provider.entries();
        let ghost items = targets_of(*targets);
        let n = targets.len();
        let mut emitted: [bool; 8] = [false; 8];
        let ghost mut order: Seq<int> = Seq::empty();
        let mut step: usize = 0;
        loop
            invariant
                n == items.len(),
                n <= 8,
                step <= n,
                step == order.len(),
                items == targets_of(*targets),
                base == start.provider.entries(),
                base.len() + 8 <= SEARCH_INFO_STORE_SIZE,
                self.cells == start.cells,
                self.same_setting(start),
                self.start == start.start,
                self.reached == start.reached,
                self.provider.wf(),
                self.provider.entries().len() == base.len() + step,
                forall|k: int|
                    #![trigger items[k]]
                    0 <= k < items.len() ==> point_in_grid(as_point(items[k])),
                forall|j: int|
                    0 <= j < base.len() ==> #[trigger] self.provider.entries()[j] == base[j],
                forall|j: int|
                    #![trigger order[j]]
                    0 <= j < order.len() ==> {
                        &&& 0 <= order[j] < n
                        &&& fresh[order[j]]
                        &&& emitted[order[j]]
                        &&& self.provider.entries()[base.len() + j] == as_point(items[order[j]])
                    },
                forall|k: int| 0 <= k < 8 && #[trigger] emitted[k] ==> order.contains(k),
                order.no_duplicates(),
                forall|j: int, l: int|
                    #![trigger order[j], order[l]]
                    0 <= j < l < order.len() ==> ranks_above(*prio, order[j], order[l]),
                forall|j: int, k: int|
                    #![trigger order[j], pending(*fresh, emitted, k)]
                    0 <= j < order.len() && 0 <= k < n && pending(*fresh, emitted, k) ==> ranks_above(
                        *prio,
                        order[j],
                        k,
                    ),
            ensures
                forall|k: int| 0 <= k < n ==> !#[trigger] pending(*fresh, emitted, k),
            decreases n - step,
        {
            let best = best_pending(fresh, &emitted, prio, n);
            if best == 8 {
                break;
            }
            proof {
                assert(!order.contains(best as int)) by {
                    if order.contains(best as int) {
                        let j = choose|j: int| 0 <= j < order.len() && order[j] == best as int;
                    }
                }
                lemma_room_left(order, n as int, best as int);
            }
            let (tx, ty) = targets.get(best);
            let ghost prev_entries = self.provider.entries();
            let ghost prev_emitted = emitted;
            let ghost prev_order = order;
            self.provider.push(Point { x: tx, y: ty });
            emitted[best] = true;
            proof {
                order = order.push(best as int);
                assert forall|k: int| 0 <= k < 8 && #[trigger] emitted[k] implies order.contains(k) by {
                    if k == best {
                        assert(order[order.len() - 1] == k);
                    } else {
                        assert(prev_emitted[k]);
                        let j = choose|j: int| 0 <= j < prev_order.len() && prev_order[j] == k;
                        assert(order[j] == k);
                    }
                }
                assert forall|j: int|
                    0 <= j < base.len() implies #[trigger] self.provider.entries()[j] == base[j] by {
                    assert(self.provider.entries()[j] == prev_entries[j]);
                }
                assert forall|j: int| 0 <= j < order.len() implies {
                    &&& 0 <= #[trigger] order[j] < n
                    &&& fresh[order[j]]
                    &&& emitted[order[j]]
                    &&& self.provider.entries()[base.len() + j] == as_point(items[order[j]])
                } by {
                    if j < prev_order.len() {
                        assert(order[j] == prev_order[j]);
                        assert(self.provider.entries()[base.len() + j] == prev_entries[base.len() + j]);
                    }
                }
                assert forall|j: int, l: int| 0 <= j < l < order.len() implies order[j] != order[l] by {
                    if l == order.len() - 1 {
                        assert(order[j] == prev_order[j]);
                        assert(emitted[order[j]]);
                    } else {
                        assert(order[j] == prev_order[j]);
                        assert(order[l] == prev_order[l]);
                    }
                }
                assert forall|j: int, l: int|
                    #![trigger order[j], order[l]]
                    0 <= j < l < order.len() implies ranks_above(*prio, order[j], order[l]) by {
                    assert(order[j] == prev_order[j]);
                    if l < order.len() - 1 {
                        assert(order[l] == prev_order[l]);
                    } else {
                        assert(pending(*fresh, prev_emitted, best as int));
                    }
                }
                assert forall|j: int, k: int|
                    #![trigger order[j], pending(*fresh, emitted, k)]
                    0 <= j < order.len() && 0 <= k < n && pending(*fresh, emitted, k) implies ranks_above(
                        *prio,
                        order[j],
                        k,
                    ) by {
                    assert(k != best);
                    assert(pending(*fresh, prev_emitted, k));
                    if j < order.len() - 1 {
                        assert(order[j] == prev_order[j]);
                    }
                }
            }
            step = step + 1;
        }
        proof {
            let fin = self.provider.entries();
            let app = self.pushed_after(base.len() as int);
            assert(app.len() == order.len());
            assert forall|m: int| 0 <= m < app.len() implies #[trigger] app[m] == as_point(items[order[m]]) by {
                assert(app[m] == fin[base.len() + m]);
            }
            assert(fin.subrange(0, base.len() as int) =~= base);
            assert forall|k: int| 0 <= k < items.len() && #[trigger] fresh[k] implies app.contains(
                as_point(items[k]),
            ) by {
                assert(!pending(*fresh, emitted, k));
                let j = choose|j: int| 0 <= j < order.len() && order[j] == k;
                assert(app[j] == as_point(items[k]));
            }
            assert forall|m: int, l: int|
                #![trigger app[m], app[l]]
                0 <= m < l < app.len() implies Explorer::key_above(
                start.frontier_key(p, app[m]),
                start.frontier_key(p, app[l]),
            ) by {
                let a = order[m];
                let b = order[l];
                assert(ranks_above(*prio, a, b));
                assert(fresh[a] && fresh[b]);
                assert(app[m] == as_point(items[a]));
                assert(app[l] == as_point(items[b]));
                if a > b {
                    assert(items[b] == targets_of(*targets)[b]);
                } else if a < b {
                    assert(items[a] == targets_of(*targets)[a]);
                }
            }
            assert forall|x: int, y: int| in_grid(x, y) implies #[trigger] self.cell(x, y) == start.cell(x, y) by {}
            assert forall|i: int| 0 <= i < fin.len() implies #[trigger] point_in_grid(fin[i])
                && self.cell_at(fin[i]).flag.is_provider_pushed by {
                if i < base.len() {
                    assert(fin[i] == base[i]);
                    assert(point_in_grid(base[i]));
                } else {
                    assert(fin[i] == app[i - base.len()]);
                    let k = order[i - base.len()];
                    assert(fresh[k]);
                }
            }
            assert forall|i: int, j: int| 0 <= i < j < fin.len() implies fin[i] != fin[j] by {
                if j < base.len() {
                    assert(fin[i] == base[i]);
                    assert(fin[j] == base[j]);
                } else if i < base.len() {
                    assert(fin[i] == base[i]);
                    assert(fin[j] == app[j - base.len()]);
                    let k = order[j - base.len()];
                    assert(fresh[k]);
                    assert(base.contains(fin[i]));
                } else {
                    let a = order[i - base.len()];
                    let b = order[j - base.len()];
                    assert(fin[i] == app[i - base.len()]);
                    assert(fin[j] == app[j - base.len()]);
                    assert(a != b);
                    if a < b {
                        assert(items[a] == targets_of(*targets)[a]);
                    } else {
                        assert(items[b] == targets_of(*targets)[b]);
                    }
                }
            }
        }
        Ghost(order)
    }
}

} // verus!
