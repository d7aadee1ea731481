use baked_snake::game::{GridConfig, SolverError};
use baked_snake::search::Searcher;
use baked_snake::snake::{Position, Tail};

fn config(width: usize, height: usize, cell_size: usize) -> GridConfig {
    GridConfig { width, height, cell_size }
}

fn pos(x: i64, y: i64) -> Position {
    Position { x, y }
}

fn manhattan(a: Position, b: Position) -> i64 {
    (a.x - b.x).abs() + (a.y - b.y).abs()
}

fn check_path(path: &[Position], start: Position, goal: Position, cs: i64) {
    assert!(!path.is_empty());
    assert_eq!(path[0], goal);
    assert_eq!(path[path.len() - 1], start);
    for i in 0..path.len() - 1 {
        assert_eq!(manhattan(path[i], path[i + 1]), cs);
    }
}

#[test]
fn empty_grid_path_has_manhattan_length() {
    let mut searcher = Searcher::new(config(10, 10, 1)).unwrap();
    let start = pos(0, 0);
    let goal = pos(3, 4);
    let path = searcher.a_star(start, goal, &Tail::new()).unwrap();
    assert_eq!(path.len() as i64, manhattan(start, goal) + 1);
    check_path(&path, start, goal, 1);
}

#[test]
fn empty_grid_path_scaled_cells() {
    let mut searcher = Searcher::new(config(10, 10, 30)).unwrap();
    let start = pos(0, 0);
    let goal = pos(90, 120);
    let path = searcher.a_star(start, goal, &Tail::new()).unwrap();
    assert_eq!(path.len() as i64, manhattan(start, goal) / 30 + 1);
    check_path(&path, start, goal, 30);
}

#[test]
fn twenty_by_twenty_corner_to_corner() {
    let mut searcher = Searcher::new(config(20, 20, 1)).unwrap();
    let start = pos(0, 0);
    let goal = pos(19, 19);
    let path = searcher.a_star(start, goal, &Tail::new()).unwrap();
    assert_eq!(path.len(), 39);
    check_path(&path, start, goal, 1);
}

#[test]
fn start_equals_goal() {
    let mut searcher = Searcher::new(config(5, 5, 1)).unwrap();
    let path = searcher.a_star(pos(2, 2), pos(2, 2), &Tail::new()).unwrap();
    assert_eq!(path, vec![pos(2, 2)]);
}

#[test]
fn path_avoids_obstacles() {
    let mut searcher = Searcher::new(config(5, 5, 1)).unwrap();
    let mut obstacles = Tail::new();
    for y in [1i64, 2, 3] {
        obstacles.push_back(pos(2, y));
    }
    let start = pos(0, 2);
    let goal = pos(4, 2);
    let path = searcher.a_star(start, goal, &obstacles).unwrap();
    check_path(&path, start, goal, 1);
    for p in path.iter() {
        assert!(!obstacles.contains(p));
        assert!(p.x >= 0 && p.x < 5 && p.y >= 0 && p.y < 5);
    }
    // the wall forces a detour past the straight-line distance
    assert!(path.len() as i64 > manhattan(start, goal) + 1);
}

#[test]
fn enclosed_goal_is_not_found() {
    let mut searcher = Searcher::new(config(5, 5, 1)).unwrap();
    let mut ring = Tail::new();
    for (x, y) in [(1, 1), (2, 1), (3, 1), (1, 2), (3, 2), (1, 3), (2, 3), (3, 3)] {
        ring.push_back(pos(x, y));
    }
    assert_eq!(searcher.a_star(pos(0, 0), pos(2, 2), &ring), None);
}

#[test]
fn repeated_calls_give_identical_paths() {
    let mut searcher = Searcher::new(config(12, 12, 1)).unwrap();
    let mut obstacles = Tail::new();
    for y in 0..9i64 {
        obstacles.push_back(pos(5, y));
    }
    let start = pos(0, 0);
    let goal = pos(11, 3);
    let first = searcher.a_star(start, goal, &obstacles);
    let second = searcher.a_star(start, goal, &obstacles);
    let third = searcher.a_star(start, goal, &obstacles);
    assert!(first.is_some());
    assert_eq!(first, second);
    assert_eq!(second, third);
}

#[test]
fn searcher_rejects_malformed_config() {
    assert!(matches!(Searcher::new(config(0, 5, 1)), Err(SolverError::MalformedConfig)));
    assert!(matches!(Searcher::new(config(5, 5, 0)), Err(SolverError::MalformedConfig)));
    assert!(matches!(Searcher::new(config(5, 5000, 1)), Err(SolverError::MalformedConfig)));
}
