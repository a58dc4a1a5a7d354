use maze_search::explorer::Explorer;
use maze_search::point::Point;
use maze_search::update_info::UpdateInfo;

fn report(x: usize, y: usize, up: Option<bool>, down: Option<bool>, left: Option<bool>, right: Option<bool>) -> UpdateInfo {
    UpdateInfo { p: Point { x, y }, up, down, left, right }
}

#[test]
fn single_open_step() {
    let mut e = Explorer::new(Point { x: 10, y: 10 });
    e.update(&report(0, 0, Some(true), None, Some(false), Some(false)));
    e.fetch_targets(Point { x: 0, y: 0 });
    assert_eq!(e.get_next(), Some(Point { x: 1, y: 0 }));
    assert_eq!(e.get_next(), None);
}

#[test]
fn diagonal_shortcut() {
    let mut e = Explorer::new(Point { x: 10, y: 10 });
    e.update(&report(0, 0, Some(true), None, Some(false), Some(false)));
    e.fetch_targets(Point { x: 0, y: 0 });
    e.update(&report(1, 0, Some(false), None, Some(false), Some(true)));
    e.fetch_targets(Point { x: 0, y: 0 });
    assert_eq!(e.get_next(), Some(Point { x: 1, y: 1 }));
    assert_eq!(e.get_next(), Some(Point { x: 1, y: 0 }));
    assert_eq!(e.get_next(), None);
    assert_eq!(e.cells[1][1].cost, 1);
}

#[test]
fn goal_reached_frontier_exhausted() {
    let mut e = Explorer::new(Point { x: 0, y: 1 });
    e.update(&report(0, 0, Some(false), Some(true), Some(true), Some(true)));
    e.fetch_targets(Point { x: 0, y: 0 });
    let p = e.get_next().unwrap();
    assert_eq!(p, Point { x: 0, y: 1 });
    e.update(&report(p.x, p.y, Some(true), Some(false), Some(true), Some(true)));
    e.fetch_targets(p);
    assert_eq!(e.get_next(), None);
}

#[test]
fn straight_corridor() {
    let mut e = Explorer::new(Point { x: 31, y: 0 });
    let mut at = Point { x: 0, y: 0 };
    for _ in 0..31 {
        e.update(&report(at.x, at.y, Some(false), Some(false), Some(false), Some(false)));
        e.fetch_targets(at);
        at = e.get_next().unwrap();
    }
    assert_eq!(at, Point { x: 31, y: 0 });
    assert_eq!(e.cells[0][31].cost, 31);
}
