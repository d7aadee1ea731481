use baked_snake::game::{Direction, GridConfig};
use baked_snake::snake::{Apple, Position, Snake, Tail, START_SNAKE_LEN};

fn config(width: usize, height: usize, cell_size: usize) -> GridConfig {
    GridConfig { width, height, cell_size }
}

fn pos(x: i64, y: i64) -> Position {
    Position { x, y }
}

#[test]
fn opposite_directions() {
    assert_eq!(Direction::Up.opposite(), Direction::Down);
    assert_eq!(Direction::Down.opposite(), Direction::Up);
    assert_eq!(Direction::Left.opposite(), Direction::Right);
    assert_eq!(Direction::Right.opposite(), Direction::Left);
}

#[test]
fn manhattan_and_squared_distance() {
    assert_eq!(pos(0, 0).mhtn_dist(pos(3, 4)), 7);
    assert_eq!(pos(3, 4).mhtn_dist(pos(0, 0)), 7);
    assert_eq!(pos(-2, 5).mhtn_dist(pos(2, 1)), 8);
    assert_eq!(pos(0, 0).dist(pos(3, 4)), 25);
    assert_eq!(pos(1, 1).dist(pos(1, 1)), 0);
}

#[test]
fn in_range_is_half_open() {
    let lower = pos(0, 0);
    let upper = pos(600, 600);
    assert!(pos(0, 0).in_range(lower, upper));
    assert!(pos(599, 599).in_range(lower, upper));
    assert!(!pos(600, 0).in_range(lower, upper));
    assert!(!pos(0, 600).in_range(lower, upper));
    assert!(!pos(-1, 0).in_range(lower, upper));
}

#[test]
fn to_direction_unit_steps_only() {
    let p = pos(90, 120);
    assert_eq!(Position::to_direction(p, pos(60, 120), 30), Some(Direction::Left));
    assert_eq!(Position::to_direction(p, pos(120, 120), 30), Some(Direction::Right));
    assert_eq!(Position::to_direction(p, pos(90, 150), 30), Some(Direction::Down));
    assert_eq!(Position::to_direction(p, pos(90, 90), 30), Some(Direction::Up));
    // zero and multi-cell displacements are not legal single steps
    assert_eq!(Position::to_direction(p, p, 30), None);
    assert_eq!(Position::to_direction(p, pos(150, 120), 30), None);
    assert_eq!(Position::to_direction(p, pos(120, 150), 30), None);
    assert_eq!(Position::to_direction(p, pos(91, 120), 30), None);
}

#[test]
fn fresh_snake_layout() {
    let cfg = config(20, 20, 30);
    let snake = Snake::new(&cfg);
    assert_eq!(snake.direction, None);
    assert_eq!(snake.tail.len(), START_SNAKE_LEN - 1);
    for (i, p) in snake.tail.iter().enumerate() {
        assert_eq!(*p, pos(((i + 1) * 30) as i64, 60));
    }
    assert!(snake.starting_pos());
}

#[test]
fn update_moves_the_head() {
    let cfg = config(20, 20, 30);
    let mut snake = Snake::new(&cfg);
    snake.set_direction(Direction::Up);
    assert_eq!(snake.direction, Some(Direction::Up));
    let len_before = snake.tail.len();
    snake.update(&cfg);
    // still at spawn length: the body grows instead of dropping its tail end
    assert_eq!(snake.tail.len(), len_before + 1);
    assert_eq!(*snake.head().unwrap(), pos(30, 30));
}

#[test]
fn update_drops_tail_when_past_spawn_length() {
    let cfg = config(20, 20, 1);
    let mut tail = Tail::new();
    for x in (0..7i64).rev() {
        tail.push_back(pos(x, 0));
    }
    let mut snake = Snake { tail, direction: Some(Direction::Right) };
    snake.update(&cfg);
    assert_eq!(snake.tail.len(), 7);
    assert_eq!(*snake.head().unwrap(), pos(7, 0));
    assert_eq!(*snake.tail.back().unwrap(), pos(1, 0));
}

#[test]
fn reversing_is_ignored() {
    let cfg = config(20, 20, 30);
    let mut snake = Snake::new(&cfg);
    snake.set_direction(Direction::Right);
    assert!(snake.direction_is_legal(Direction::Up));
    assert!(!snake.direction_is_legal(Direction::Left));
    snake.set_direction(Direction::Left);
    assert_eq!(snake.direction, Some(Direction::Right));
    snake.set_direction(Direction::Down);
    assert_eq!(snake.direction, Some(Direction::Down));
}

#[test]
fn self_collision_detection() {
    let mut tail = Tail::new();
    tail.push_back(pos(0, 0));
    tail.push_back(pos(1, 0));
    tail.push_back(pos(1, 1));
    let snake = Snake { tail, direction: None };
    assert!(!snake.ate_itself());
    assert!(snake.is_inside(pos(1, 1)));
    assert!(!snake.is_inside(pos(0, 0)));

    let mut looped = Tail::new();
    looped.push_back(pos(0, 0));
    looped.push_back(pos(1, 0));
    looped.push_back(pos(0, 0));
    let bitten = Snake { tail: looped, direction: None };
    assert!(bitten.ate_itself());
}

#[test]
fn add_node_grows_at_the_head() {
    let cfg = config(20, 20, 30);
    let mut snake = Snake::new(&cfg);
    snake.add_node(pos(0, 60));
    assert_eq!(*snake.head().unwrap(), pos(0, 60));
    assert_eq!(snake.tail.len(), START_SNAKE_LEN);
}

#[test]
fn apples_spawn_on_cells_of_the_field() {
    let cfg = config(20, 20, 30);
    for _ in 0..50 {
        let apple = Apple::new(&cfg);
        assert!(!apple.eaten);
        assert!(apple.pos.x >= 0 && apple.pos.x < 600);
        assert!(apple.pos.y >= 0 && apple.pos.y < 600);
        assert_eq!(apple.pos.x % 30, 0);
        assert_eq!(apple.pos.y % 30, 0);
    }
}
