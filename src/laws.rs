use vstd::prelude::*;
use crate::explorer::{in_grid, point_in_grid, Explorer};
use crate::point::Point;

verus! {

/// Knowledge only accumulates: if nothing learnt is lost from `a` to `b` nor
/// from `b` to `c`, nothing is lost from `a` to `c`. Every operation of the
/// engine ensures `progresses_to`, so over a whole run an available cost
/// never grows and a set flag is never cleared.
pub proof fn lemma_progress_transitive(a: Explorer, b: Explorer, c: Explorer)
    requires
        a.progresses_to(b),
        b.progresses_to(c),
    ensures
        a.progresses_to(c),
{
    assert forall|x: int, y: int| in_grid(x, y) implies a.cell(x, y).progresses_to(#[trigger] c.cell(x, y)) by {
        let _ = b.cell(x, y);
    }
}

/// Two engines with the same wall knowledge allow the same moves.
proof fn lemma_same_walls_same_targets(a: Explorer, b: Explorer, p: Point)
    requires
        point_in_grid(p),
        forall|x: int, y: int|
            #![trigger b.cell(x, y)]
            in_grid(x, y) ==> {
                &&& b.cell(x, y).flag.is_updated_up_wall == a.cell(x, y).flag.is_updated_up_wall
                &&& b.cell(x, y).flag.is_exists_up_wall == a.cell(x, y).flag.is_exists_up_wall
                &&& b.cell(x, y).flag.is_updated_right_wall == a.cell(x, y).flag.is_updated_right_wall
                &&& b.cell(x, y).flag.is_exists_right_wall == a.cell(x, y).flag.is_exists_right_wall
            },
    ensures
        forall|x: int, y: int| #[trigger] b.is_target(p, x, y) == a.is_target(p, x, y),
{
    let px = p.x as int;
    let py = p.y as int;
    assert forall|i: int, j: int| px - 1 <= i <= px + 1 && py - 1 <= j <= py + 1 && in_grid(i, j) implies
        b.up_open(i, j) == a.up_open(i, j) && b.right_open(i, j) == a.right_open(i, j) by {
        let _ = b.cell(i, j);
    }
}

/// An expansion loses nothing learnt.
pub proof fn lemma_expansion_progresses(s: Explorer, p: Point, next: Explorer)
    requires
        s.wf(),
        s.expands_to(p, next),
    ensures
        s.progresses_to(next),
{
    if s.can_expand(p) {
        assert forall|x: int, y: int| in_grid(x, y) implies s.cell(x, y).progresses_to(#[trigger] next.cell(x, y)) by {
            assert(next.cell(x, y) == s.expanded_cell(p, x, y));
        }
    }
}

/// A cell is pushed on the frontier at most once over a run: a cell that
/// one expansion pushes is never pushed by a later expansion, whatever
/// happened in between, as long as nothing learnt was lost meanwhile.
pub proof fn lemma_pushed_at_most_once(
    s0: Explorer,
    p: Point,
    s1: Explorer,
    s2: Explorer,
    p2: Point,
    s3: Explorer,
    q: Point,
)
    requires
        s0.wf(),
        s0.expands_to(p, s1),
        s1.progresses_to(s2),
        s2.wf(),
        s2.expands_to(p2, s3),
        s1.pushed_after(s0.provider.entries().len() as int).contains(q),
    ensures
        !s3.pushed_after(s2.provider.entries().len() as int).contains(q),
{
    if !s0.can_expand(p) {
        assert(s1.pushed_after(s0.provider.entries().len() as int).len() == 0);
    }
    assert(point_in_grid(q) && s0.is_new_target(p, q.x as int, q.y as int));
    assert(s1.cell(q.x as int, q.y as int) == s0.expanded_cell(p, q.x as int, q.y as int));
    assert(s1.cell(q.x as int, q.y as int).flag.is_provider_pushed);
    assert(s2.cell(q.x as int, q.y as int).flag.is_provider_pushed);
    if !s2.can_expand(p2) {
        assert(s3.pushed_after(s2.provider.entries().len() as int).len() == 0);
    }
}

/// Expanding the same cell twice in a row pushes nothing the second time
/// and loses nothing learnt.
pub proof fn lemma_expand_twice(s0: Explorer, p: Point, s1: Explorer, s2: Explorer)
    requires
        s0.wf(),
        s0.expands_to(p, s1),
        s1.wf(),
        s1.expands_to(p, s2),
    ensures
        s2.provider.entries() == s1.provider.entries(),
        s1.progresses_to(s2),
{
    lemma_expansion_progresses(s1, p, s2);
    if s0.can_expand(p) && s1.can_expand(p) {
        assert forall|x: int, y: int| in_grid(x, y) implies {
            &&& (#[trigger] s1.cell(x, y)).flag.is_updated_up_wall == s0.cell(x, y).flag.is_updated_up_wall
            &&& s1.cell(x, y).flag.is_exists_up_wall == s0.cell(x, y).flag.is_exists_up_wall
            &&& s1.cell(x, y).flag.is_updated_right_wall == s0.cell(x, y).flag.is_updated_right_wall
            &&& s1.cell(x, y).flag.is_exists_right_wall == s0.cell(x, y).flag.is_exists_right_wall
        } by {
            assert(s1.cell(x, y) == s0.expanded_cell(p, x, y));
        }
        lemma_same_walls_same_targets(s0, s1, p);
        let n = s1.provider.entries().len() as int;
        let pushed = s2.pushed_after(n);
        if pushed.len() > 0 {
            let q = pushed[0];
            assert(pushed.contains(q));
            assert(s1.is_new_target(p, q.x as int, q.y as int));
            assert(s0.is_target(p, q.x as int, q.y as int));
            assert(s1.cell(q.x as int, q.y as int) == s0.expanded_cell(p, q.x as int, q.y as int));
        }
        assert(s2.provider.entries() =~= s2.provider.entries().subrange(0, n));
    }
}

} // verus!
