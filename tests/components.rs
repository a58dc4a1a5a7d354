use maze_search::cell::{Cell, CellFlag};
use maze_search::direction::Direction;
use maze_search::explorer::{Explorer, MAZE_HEIGHT, MAZE_WIDTH};
use maze_search::point::Point;
use maze_search::search_info::{SearchInfo, SearchInfoProvider, SEARCH_INFO_STORE_SIZE};
use maze_search::update_info::UpdateInfo;

fn open_all(e: &mut Explorer, x: usize, y: usize) {
    e.update(&UpdateInfo { p: Point { x, y }, up: Some(false), down: Some(false), left: Some(false), right: Some(false) });
}

#[test]
fn distance_is_chebyshev() {
    let a = Point { x: 3, y: 10 };
    assert_eq!(a.distance(Point { x: 10, y: 10 }), 7);
    assert_eq!(a.distance(Point { x: 5, y: 1 }), 9);
    assert_eq!(a.distance(a), 0);
    assert_eq!(Point { x: 0, y: 0 }.distance(Point { x: 31, y: 31 }), 31);
}

#[test]
fn get_around_each_direction() {
    let p = Point { x: 5, y: 7 };
    assert_eq!(p.get_around(Direction::NoDir), p);
    assert_eq!(p.get_around(Direction::Up), Point { x: 5, y: 8 });
    assert_eq!(p.get_around(Direction::Down), Point { x: 5, y: 6 });
    assert_eq!(p.get_around(Direction::Left), Point { x: 4, y: 7 });
    assert_eq!(p.get_around(Direction::Right), Point { x: 6, y: 7 });
    assert_eq!(p.get_around(Direction::UpLeft), Point { x: 4, y: 8 });
    assert_eq!(p.get_around(Direction::UpRight), Point { x: 6, y: 8 });
    assert_eq!(p.get_around(Direction::DownLeft), Point { x: 4, y: 6 });
    assert_eq!(p.get_around(Direction::DownRight), Point { x: 6, y: 6 });
}

#[test]
fn update_cost_first_then_smaller_then_larger() {
    let mut c = Cell::default();
    assert!(!c.flag.is_cost_available);
    let a = SearchInfo::from_point(Point { x: 1, y: 2 });
    let b = SearchInfo::from_point(Point { x: 3, y: 4 });
    c.update_cost(9, a);
    assert_eq!(c.cost, 9);
    assert!(c.flag.is_cost_available);
    assert!(!c.flag.is_cost_dirty);
    assert_eq!(c.from_info, a);
    c.update_cost(9, b);
    assert_eq!(c.cost, 9);
    assert_eq!(c.from_info, a);
    assert!(!c.flag.is_cost_dirty);
    c.update_cost(4, b);
    assert_eq!(c.cost, 4);
    assert_eq!(c.from_info, b);
    assert!(c.flag.is_cost_dirty);
    c.update_cost(7, a);
    assert_eq!(c.cost, 4);
    assert_eq!(c.from_info, b);
}

#[test]
fn search_info_sentinel_and_round_trip() {
    let none = SearchInfo::default();
    assert_eq!(none, SearchInfo { x: 0xff, y: 0xff });
    let s = SearchInfo::from_point(Point { x: 31, y: 7 });
    assert_eq!(s.to_point(), Point { x: 31, y: 7 });
}

#[test]
fn provider_is_lifo() {
    let mut s = SearchInfoProvider::default();
    assert_eq!(s.get_count(), 0);
    assert_eq!(s.get_free(), SEARCH_INFO_STORE_SIZE);
    assert_eq!(s.pop(), None);
    assert!(s.push(Point { x: 1, y: 2 }));
    assert!(s.push(Point { x: 3, y: 4 }));
    assert_eq!(s.get_count(), 2);
    assert_eq!(s.get_free(), SEARCH_INFO_STORE_SIZE - 2);
    assert_eq!(s.pop(), Some(Point { x: 3, y: 4 }));
    assert_eq!(s.pop(), Some(Point { x: 1, y: 2 }));
    assert_eq!(s.pop(), None);
}

#[test]
fn provider_full_refuses_push() {
    let mut s = SearchInfoProvider::default();
    for i in 0..SEARCH_INFO_STORE_SIZE {
        assert!(s.push(Point { x: i % 32, y: i / 32 }));
    }
    assert_eq!(s.get_free(), 0);
    assert!(!s.push(Point { x: 0, y: 0 }));
    assert_eq!(s.get_count(), SEARCH_INFO_STORE_SIZE);
    assert_eq!(s.pop(), Some(Point { x: 31, y: 31 }));
    s.clear();
    assert_eq!(s.get_count(), 0);
    assert_eq!(s.pop(), None);
}

#[test]
fn new_sets_boundary_walls_only() {
    let e = Explorer::new(Point { x: 10, y: 10 });
    assert_eq!(e.goal, Point { x: 10, y: 10 });
    assert_eq!(e.start, Point { x: 0, y: 0 });
    assert_eq!(e.provider.get_count(), 0);
    for y in 0..MAZE_HEIGHT {
        for x in 0..MAZE_WIDTH {
            let f = e.cells[y][x].flag;
            assert_eq!(f.is_updated_up_wall, y == MAZE_HEIGHT - 1);
            assert_eq!(f.is_exists_up_wall, y == MAZE_HEIGHT - 1);
            assert_eq!(f.is_updated_right_wall, x == MAZE_WIDTH - 1);
            assert_eq!(f.is_exists_right_wall, x == MAZE_WIDTH - 1);
            assert_eq!(f.is_cost_available, x == 0 && y == 0);
            assert_eq!(f.is_provider_pushed, x == 0 && y == 0);
            assert!(!f.is_updated && !f.is_search_around && !f.is_cost_dirty);
        }
    }
    assert_eq!(e.cells[0][0].cost, 0);
}

#[test]
fn update_writes_owned_and_neighbour_edges() {
    let mut e = Explorer::new(Point { x: 10, y: 10 });
    e.update(&UpdateInfo { p: Point { x: 4, y: 6 }, up: Some(true), down: Some(false), left: Some(true), right: None });
    let c = e.cells[6][4].flag;
    assert!(c.is_updated && c.is_updated_up_wall && c.is_exists_up_wall);
    assert!(!c.is_updated_right_wall);
    let below = e.cells[5][4].flag;
    assert!(below.is_updated_up_wall && !below.is_exists_up_wall);
    assert!(!below.is_updated);
    let left = e.cells[6][3].flag;
    assert!(left.is_updated_right_wall && left.is_exists_right_wall);
}

#[test]
fn update_twice_is_refused() {
    let mut e = Explorer::new(Point { x: 10, y: 10 });
    e.update(&UpdateInfo { p: Point { x: 2, y: 2 }, up: Some(true), down: None, left: None, right: None });
    e.update(&UpdateInfo { p: Point { x: 2, y: 2 }, up: Some(false), down: None, left: None, right: Some(true) });
    let c = e.cells[2][2].flag;
    assert!(c.is_exists_up_wall);
    assert!(!c.is_updated_right_wall);
}

#[test]
fn update_off_grid_is_refused() {
    let mut e = Explorer::new(Point { x: 10, y: 10 });
    e.update(&UpdateInfo { p: Point { x: 32, y: 0 }, up: Some(false), down: None, left: Some(false), right: None });
    assert!(!e.cells[0][31].flag.is_updated);
    assert!(e.cells[0][31].flag.is_exists_right_wall);
}

#[test]
fn expand_without_cost_does_nothing() {
    let mut e = Explorer::new(Point { x: 10, y: 10 });
    open_all(&mut e, 5, 5);
    e.fetch_targets(Point { x: 5, y: 5 });
    assert!(!e.cells[5][5].flag.is_search_around);
    assert!(!e.cells[6][5].flag.is_cost_available);
    assert_eq!(e.get_next(), None);
}

#[test]
fn expand_with_full_frontier_does_nothing() {
    let mut e = Explorer::new(Point { x: 10, y: 10 });
    open_all(&mut e, 0, 0);
    for _ in 0..(SEARCH_INFO_STORE_SIZE - 7) {
        assert!(e.provider.push(Point { x: 0, y: 0 }));
    }
    e.fetch_targets(Point { x: 0, y: 0 });
    assert!(!e.cells[0][0].flag.is_search_around);
    assert!(!e.cells[1][0].flag.is_cost_available);
    assert_eq!(e.provider.get_count(), SEARCH_INFO_STORE_SIZE - 7);
}

#[test]
fn expand_orders_by_priority_then_step() {
    // From (5,5), all four edges open and the diagonals unknown: up, right,
    // down and left are reached with cost 1. Goal (10,10): up and right are
    // at distance 5, down and left at distance 6.
    let mut e = Explorer::new(Point { x: 10, y: 10 });
    e.cells[5][5].cost = 0;
    e.cells[5][5].flag.is_cost_available = true;
    open_all(&mut e, 5, 5);
    e.fetch_targets(Point { x: 5, y: 5 });
    assert!(e.cells[5][5].flag.is_search_around);
    assert_eq!(e.get_next(), Some(Point { x: 5, y: 6 }));
    assert_eq!(e.get_next(), Some(Point { x: 6, y: 5 }));
    assert_eq!(e.get_next(), Some(Point { x: 5, y: 4 }));
    assert_eq!(e.get_next(), Some(Point { x: 4, y: 5 }));
    assert_eq!(e.get_next(), None);
    for (x, y) in [(5, 6), (6, 5), (5, 4), (4, 5)] {
        let c = e.cells[y][x];
        assert_eq!(c.cost, 1);
        assert!(c.flag.is_provider_pushed);
        assert_eq!(c.from_info.to_point(), Point { x: 5, y: 5 });
    }
}

#[test]
fn expand_twice_adds_nothing() {
    let mut e = Explorer::new(Point { x: 10, y: 10 });
    open_all(&mut e, 0, 0);
    e.fetch_targets(Point { x: 0, y: 0 });
    let count = e.provider.get_count();
    assert_eq!(count, 2);
    e.fetch_targets(Point { x: 0, y: 0 });
    assert_eq!(e.provider.get_count(), count);
    assert!(e.cells[0][0].flag.is_search_around);
    assert!(e.cells[1][0].flag.is_provider_pushed);
}

#[test]
fn cell_pushed_once_over_run() {
    let mut e = Explorer::new(Point { x: 10, y: 10 });
    open_all(&mut e, 0, 0);
    e.fetch_targets(Point { x: 0, y: 0 });
    // (1,0) and (0,1) are queued with equal priority; the earlier step (up)
    // is popped first. Expanding (0,1) reaches (1,0) again diagonally
    // through the origin, but must not queue it a second time.
    let p = e.get_next().unwrap();
    assert_eq!(p, Point { x: 0, y: 1 });
    open_all(&mut e, 0, 1);
    e.fetch_targets(p);
    assert_eq!(e.cells[0][1].cost, 1);
    let mut seen = Vec::new();
    while let Some(q) = e.get_next() {
        assert!(!seen.contains(&q));
        seen.push(q);
    }
    assert_eq!(seen.iter().filter(|q| **q == Point { x: 1, y: 0 }).count(), 1);
    assert!(seen.contains(&Point { x: 0, y: 2 }));
}

#[test]
fn relaxation_lowers_cost_and_marks_dirty() {
    let mut e = Explorer::new(Point { x: 10, y: 10 });
    e.cells[3][3].cost = 7;
    e.cells[3][3].flag.is_cost_available = true;
    e.cells[3][4].cost = 2;
    e.cells[3][4].flag.is_cost_available = true;
    e.update(&UpdateInfo { p: Point { x: 4, y: 3 }, up: None, down: None, left: Some(false), right: None });
    e.fetch_targets(Point { x: 4, y: 3 });
    assert_eq!(e.cells[3][3].cost, 3);
    assert!(e.cells[3][3].flag.is_cost_dirty);
    assert_eq!(e.cells[3][3].from_info.to_point(), Point { x: 4, y: 3 });
    e.fetch_targets(Point { x: 3, y: 3 });
    assert_eq!(e.cells[3][4].cost, 2);
}

#[test]
fn defaults() {
    let c = Cell::default();
    assert_eq!(c.cost, usize::MAX);
    assert_eq!(c.from_info, SearchInfo::default());
    assert_eq!(CellFlag::default(), c.flag);
    let u = UpdateInfo::default();
    assert_eq!(u.p, Point::default());
    assert!(u.up.is_none() && u.down.is_none() && u.left.is_none() && u.right.is_none());
    let e = Explorer::default();
    assert_eq!(e.goal, Point { x: 0, y: 0 });
    assert!(!e.cells[0][0].flag.is_cost_available);
}
