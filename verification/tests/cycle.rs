use baked_snake::game::{Direction, GridConfig, SolverError};
use baked_snake::search::Solver;
use baked_snake::snake::{Position, Tail};

fn config(width: usize, height: usize, cell_size: usize) -> GridConfig {
    GridConfig { width, height, cell_size }
}

fn manhattan(a: Position, b: Position) -> i64 {
    (a.x - b.x).abs() + (a.y - b.y).abs()
}

#[test]
fn zig_zag_covers_grid_once() {
    for (w, h, cs) in [(4usize, 3usize, 1usize), (20, 20, 30), (2, 2, 1), (6, 5, 10)] {
        let mut solver = Solver::new(config(w, h, cs)).unwrap();
        solver.gen_zig_zag_path();
        let path = &solver.path;
        assert_eq!(path.len(), w * h);
        for i in 0..path.len() {
            for j in (i + 1)..path.len() {
                assert_ne!(path[i], path[j]);
            }
        }
        for i in 0..path.len() {
            let next = path[(i + 1) % path.len()];
            assert_eq!(manhattan(path[i], next), cs as i64);
        }
    }
}

#[test]
fn zig_zag_cells_stay_in_field() {
    let mut solver = Solver::new(config(8, 4, 30)).unwrap();
    solver.gen_zig_zag_path();
    for p in solver.path.iter() {
        assert!(p.x >= 0 && p.x < 8 * 30);
        assert!(p.y >= 0 && p.y < 4 * 30);
        assert_eq!(p.x % 30, 0);
        assert_eq!(p.y % 30, 0);
    }
}

#[test]
fn odd_column_count_rejected() {
    assert!(matches!(Solver::new(config(3, 4, 1)), Err(SolverError::MalformedConfig)));
    assert!(matches!(Solver::new(config(2, 1, 1)), Err(SolverError::MalformedConfig)));
    assert!(matches!(Solver::new(config(0, 4, 1)), Err(SolverError::MalformedConfig)));
}

#[test]
fn init_aligns_cursor_to_predecessor() {
    let mut solver = Solver::new(config(2, 2, 1)).unwrap();
    solver.gen_zig_zag_path();
    // the cycle of a 2x2 grid: (0,0) (1,0) (1,1) (0,1)
    assert_eq!(solver.path, vec![
        Position { x: 0, y: 0 },
        Position { x: 1, y: 0 },
        Position { x: 1, y: 1 },
        Position { x: 0, y: 1 },
    ]);
    let mut tail = Tail::new();
    tail.push_back(Position { x: 1, y: 0 });
    solver.init(&tail).unwrap();
    assert_eq!(solver.cursor, 0);
}

#[test]
fn desynchronization_on_head_off_cycle() {
    let mut solver = Solver::new(config(2, 2, 1)).unwrap();
    solver.gen_zig_zag_path();
    let path_before = solver.path.clone();
    let cursor_before = solver.cursor;
    let mut tail = Tail::new();
    tail.push_back(Position { x: 5, y: 5 });
    assert_eq!(solver.init(&tail), Err(SolverError::Desynchronization));
    // no partial state mutation
    assert_eq!(solver.path, path_before);
    assert_eq!(solver.cursor, cursor_before);
    // an empty body desynchronizes too
    let empty = Tail::new();
    assert_eq!(solver.init(&empty), Err(SolverError::Desynchronization));
}

#[test]
fn make_move_follows_the_cycle() {
    let mut solver = Solver::new(config(2, 2, 1)).unwrap();
    solver.gen_zig_zag_path();
    let mut tail = Tail::new();
    tail.push_back(Position { x: 0, y: 0 });
    solver.init(&tail).unwrap();
    let target = Position { x: 1, y: 1 };

    let expected = [Direction::Right, Direction::Down, Direction::Left, Direction::Up];
    let cells = [
        Position { x: 1, y: 0 },
        Position { x: 1, y: 1 },
        Position { x: 0, y: 1 },
        Position { x: 0, y: 0 },
    ];
    for round in 0..8 {
        let dir = solver.make_move(&tail, target).unwrap();
        assert_eq!(dir, expected[round % 4]);
        tail[0] = cells[round % 4];
    }
}

#[test]
fn make_move_desynchronizes_off_cycle() {
    let mut solver = Solver::new(config(2, 2, 1)).unwrap();
    solver.gen_zig_zag_path();
    let mut tail = Tail::new();
    tail.push_back(Position { x: 0, y: 0 });
    solver.init(&tail).unwrap();
    tail[0] = Position { x: 7, y: 7 };
    let cursor_before = solver.cursor;
    assert_eq!(
        solver.make_move(&tail, Position { x: 0, y: 0 }),
        Err(SolverError::Desynchronization)
    );
    assert_eq!(solver.cursor, cursor_before);
}

#[test]
fn ham_path_index_finds_first_occurrence() {
    let mut solver = Solver::new(config(2, 2, 1)).unwrap();
    solver.gen_zig_zag_path();
    assert_eq!(solver.get_ham_path_index(Position { x: 1, y: 1 }), Some(2));
    assert_eq!(solver.get_ham_path_index(Position { x: 9, y: 9 }), None);
    let mut tail = Tail::new();
    tail.push_back(Position { x: 0, y: 1 });
    assert_eq!(solver.match_starting_pos(&tail), Some(3));
    assert_eq!(solver.match_starting_pos(&Tail::new()), None);
}
