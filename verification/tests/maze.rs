use baked_snake::game::GridConfig;
use baked_snake::parse::Maze;
use baked_snake::search::Searcher;
use baked_snake::snake::{Position, Tail};

fn config(width: usize, height: usize, cell_size: usize) -> GridConfig {
    GridConfig { width, height, cell_size }
}

fn pos(x: i64, y: i64) -> Position {
    Position { x, y }
}

#[test]
fn parse_scales_cells() {
    let maze = Maze::parse(vec!["S# ", " #E"], &config(3, 2, 30));
    assert_eq!(maze.start, pos(0, 0));
    assert_eq!(maze.end, pos(60, 30));
    assert_eq!(maze.obstacles.len(), 2);
    assert!(maze.obstacles.contains(&pos(30, 0)));
    assert!(maze.obstacles.contains(&pos(30, 30)));
}

#[test]
fn parse_without_markers_defaults_to_origin() {
    let maze = Maze::parse(vec!["  ", " #"], &config(2, 2, 1));
    assert_eq!(maze.start, pos(0, 0));
    assert_eq!(maze.end, pos(0, 0));
    assert_eq!(maze.obstacles, vec![pos(1, 1)]);
}

#[test]
fn parse_last_marker_wins() {
    let maze = Maze::parse(vec!["SS", "ES"], &config(2, 2, 1));
    assert_eq!(maze.start, pos(1, 1));
    assert_eq!(maze.end, pos(0, 1));
    assert!(maze.obstacles.is_empty());
}

#[test]
fn parsed_maze_drives_the_searcher() {
    let rows = vec![
        "S ###",
        "  # E",
        "  #  ",
        "     ",
    ];
    let cfg = config(5, 4, 1);
    let maze = Maze::parse(rows, &cfg);
    assert_eq!(maze.start, pos(0, 0));
    assert_eq!(maze.end, pos(4, 1));
    let obstacles: Tail = maze.obstacles.iter().copied().collect();
    let mut searcher = Searcher::new(cfg).unwrap();
    let path = searcher.a_star(maze.start, maze.end, &obstacles).unwrap();
    assert_eq!(path[0], maze.end);
    assert_eq!(path[path.len() - 1], maze.start);
    for p in path.iter() {
        assert!(!maze.obstacles.contains(p));
    }
}
