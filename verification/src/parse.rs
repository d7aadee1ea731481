use vstd::prelude::*;
use vstd::string::StrSliceExecFns;

use crate::game::GridConfig;
use crate::search::cell_at;
use crate::snake::Position;

verus! {

/// A start/end/obstacle layout for exercising the searcher, parsed from an
/// ASCII map: `#` an obstacle, `S` the start, `E` the end, a space a free
/// cell. The row index is y, the column index is x, each scaled by the
/// configured cell size.
#[derive(Debug)]
pub struct Maze {
    pub start: Position,
    pub end: Position,
    pub obstacles: Vec<Position>,
}

/// A character that may appear in a maze row.
pub open spec fn maze_char(c: char) -> bool {
    c == '#' || c == 'S' || c == 'E' || c == ' '
}

/// Whether the map holds character `c` at column `x` of row `y`.
pub open spec fn char_at(input: Seq<&str>, y: int, x: int, c: char) -> bool {
    0 <= y < input.len() && 0 <= x < input[y]@.len() && input[y]@[x] == c
}

/// Whether `(y, x)` is the last cell holding `c`, in row-major order.
pub open spec fn is_last_marker(input: Seq<&str>, y: int, x: int, c: char) -> bool {
    char_at(input, y, x, c) && forall|y2: int, x2: int|
        #[trigger] char_at(input, y2, x2, c) ==> y2 < y || (y2 == y && x2 <= x)
}

/// Whether `p` is the scaled cell of some obstacle character of the map.
pub open spec fn is_obstacle_cell(input: Seq<&str>, cfg: GridConfig, p: Position) -> bool {
    exists|y: int, x: int| #[trigger] char_at(input, y, x, '#') && p == cell_at(cfg, x, y)
}

impl Maze {
    /// Parse an ASCII map into start, end and obstacle cells. The obstacle
    /// list holds exactly the scaled `#` cells; start and end are the last
    /// `S` and `E` cells in row-major order, or the origin if the map has
    /// none.
    pub fn parse(input: Vec<&str>, config: &GridConfig) -> (m: Maze)
        requires
            config.wf(),
            input@.len() <= 4096,
            forall|y: int| 0 <= y < input@.len() ==> (#[trigger] input@[y])@.len() <= 4096,
            forall|y: int, x: int|
                0 <= y < input@.len() && 0 <= x < input@[y]@.len() ==> maze_char(
                    #[trigger] input@[y]@[x],
                ),
        ensures
            forall|p: Position|
                #[trigger] m.obstacles@.contains(p) ==> is_obstacle_cell(input@, *config, p),
            forall|y: int, x: int|
                #[trigger] char_at(input@, y, x, '#') ==> m.obstacles@.contains(
                    cell_at(*config, x, y),
                ),
            forall|y: int, x: int|
                #[trigger] is_last_marker(input@, y, x, 'S') ==> m.start == cell_at(*config, x, y),
            (forall|y: int, x: int| !#[trigger] char_at(input@, y, x, 'S')) ==> m.start == (Position {
                x: 0,
                y: 0,
            }),
            forall|y: int, x: int|
                #[trigger] is_last_marker(input@, y, x, 'E') ==> m.end == cell_at(*config, x, y),
            (forall|y: int, x: int| !#[trigger] char_at(input@, y, x, 'E')) ==> m.end == (Position {
                x: 0,
                y: 0,
            }),
    {
        let mut obstacles: Vec<Position> = Vec::new();
        let mut start = Position { x: 0, y: 0 };
        let mut end = Position { x: 0, y: 0 };
        let ghost mut s_found: bool = false;
        let ghost mut s_y: int = 0;
        let ghost mut s_x: int = 0;
        let ghost mut e_found: bool = false;
        let ghost mut e_y: int = 0;
        let ghost mut e_x: int = 0;

        let mut y: usize = 0;
        while y < input.len()
            invariant
                config.wf(),
                0 <= y <= input@.len(),
                input@.len() <= 4096,
                forall|yy: int| 0 <= yy < input@.len() ==> (#[trigger] input@[yy])@.len() <= 4096,
                forall|yy: int, xx: int|
                    0 <= yy < input@.len() && 0 <= xx < input@[yy]@.len() ==> maze_char(
                        #[trigger] input@[yy]@[xx],
                    ),
                forall|p: Position|
                    #[trigger] obstacles@.contains(p) ==> is_obstacle_cell(input@, *config, p),
                forall|y2: int, x2: int|
                    #[trigger] char_at(input@, y2, x2, '#') && y2 < y ==> obstacles@.contains(
                        cell_at(*config, x2, y2),
                    ),
                s_found ==> char_at(input@, s_y, s_x, 'S') && start == cell_at(*config, s_x, s_y),
                s_found ==> forall|y2: int, x2: int|
                    #[trigger] char_at(input@, y2, x2, 'S') && y2 < y ==> y2 < s_y || (y2 == s_y
                        && x2 <= s_x),
                !s_found ==> start == (Position { x: 0, y: 0 }) && forall|y2: int, x2: int|
                    !(#[trigger] char_at(input@, y2, x2, 'S') && y2 < y),
                e_found ==> char_at(input@, e_y, e_x, 'E') && end == cell_at(*config, e_x, e_y),
                e_found ==> forall|y2: int, x2: int|
                    #[trigger] char_at(input@, y2, x2, 'E') && y2 < y ==> y2 < e_y || (y2 == e_y
                        && x2 <= e_x),
                !e_found ==> end == (Position { x: 0, y: 0 }) && forall|y2: int, x2: int|
                    !(#[trigger] char_at(input@, y2, x2, 'E') && y2 < y),
            decreases input@.len() - y,
        {
            let line: &str = input[y];
            let line_len = line.unicode_len();
            let mut x: usize = 0;
            while x < line_len
                invariant
                    config.wf(),
                    0 <= y < input@.len(),
                    line == input@[y as int],
                    line_len == line@.len(),
                    0 <= x <= line_len,
                    input@.len() <= 4096,
                    forall|yy: int|
                        0 <= yy < input@.len() ==> (#[trigger] input@[yy])@.len() <= 4096,
                    forall|yy: int, xx: int|
                        0 <= yy < input@.len() && 0 <= xx < input@[yy]@.len() ==> maze_char(
                            #[trigger] input@[yy]@[xx],
                        ),
                    forall|p: Position|
                        #[trigger] obstacles@.contains(p) ==> is_obstacle_cell(input@, *config, p),
                    forall|y2: int, x2: int|
                        #[trigger] char_at(input@, y2, x2, '#') && (y2 < y || (y2 == y && x2 < x))
                            ==> obstacles@.contains(cell_at(*config, x2, y2)),
                    s_found ==> char_at(input@, s_y, s_x, 'S') && start == cell_at(
                        *config,
                        s_x,
                        s_y,
                    ),
                    s_found ==> forall|y2: int, x2: int|
                        #[trigger] char_at(input@, y2, x2, 'S') && (y2 < y || (y2 == y && x2 < x))
                            ==> y2 < s_y || (y2 == s_y && x2 <= s_x),
                    !s_found ==> start == (Position { x: 0, y: 0 }) && forall|y2: int, x2: int|
                        !(#[trigger] char_at(input@, y2, x2, 'S') && (y2 < y || (y2 == y && x2
                            < x))),
                    e_found ==> char_at(input@, e_y, e_x, 'E') && end == cell_at(*config, e_x, e_y),
                    e_found ==> forall|y2: int, x2: int|
                        #[trigger] char_at(input@, y2, x2, 'E') && (y2 < y || (y2 == y && x2 < x))
                            ==> y2 < e_y || (y2 == e_y && x2 <= e_x),
                    !e_found ==> end == (Position { x: 0, y: 0 }) && forall|y2: int, x2: int|
                        !(#[trigger] char_at(input@, y2, x2, 'E') && (y2 < y || (y2 == y && x2
                            < x))),
                decreases line_len - x,
            {
                let c = line.get_char(x);
                proof {
                    vstd::arithmetic::mul::lemma_mul_upper_bound(
                        x as int,
                        4096,
                        config.cell_size as int,
                        4096,
                    );
                    vstd::arithmetic::mul::lemma_mul_upper_bound(
                        y as int,
                        4096,
                        config.cell_size as int,
                        4096,
                    );
                    vstd::arithmetic::mul::lemma_mul_nonnegative(
                        x as int,
                        config.cell_size as int,
                    );
                    vstd::arithmetic::mul::lemma_mul_nonnegative(
                        y as int,
                        config.cell_size as int,
                    );
                }
                let cell = Position {
                    x: (x * config.cell_size) as i64,
                    y: (y * config.cell_size) as i64,
                };
                proof {
                    assert(cell == cell_at(*config, x as int, y as int));
                }
                if c == '#' {
                    let ghost obstacles0 = obstacles@;
                    obstacles.push(cell);
                    proof {
                        assert(char_at(input@, y as int, x as int, '#'));
                        assert forall|p: Position| #[trigger] obstacles@.contains(p) implies
                        is_obstacle_cell(input@, *config, p) by {
                            if p == cell {
                                assert(char_at(input@, y as int, x as int, '#') && p == cell_at(
                                    *config,
                                    x as int,
                                    y as int,
                                ));
                            } else {
                                assert(obstacles0.contains(p));
                            }
                        };
                        assert(obstacles@.contains(cell)) by {
                            assert(obstacles@[obstacles@.len() - 1] == cell);
                        };
                        assert forall|y2: int, x2: int|
                            #[trigger] char_at(input@, y2, x2, '#') && (y2 < y || (y2 == y && x2
                                < x + 1)) implies obstacles@.contains(cell_at(*config, x2, y2)) by {
                            if y2 < y || (y2 == y && x2 < x) {
                                assert(obstacles0.contains(cell_at(*config, x2, y2)));
                                let i = choose|i: int|
                                    0 <= i < obstacles0.len() && obstacles0[i] == cell_at(
                                        *config,
                                        x2,
                                        y2,
                                    );
                                assert(obstacles@[i] == cell_at(*config, x2, y2));
                            }
                        };
                    }
                } else if c == 'S' {
                    start = cell;
                    proof {
                        s_found = true;
                        s_y = y as int;
                        s_x = x as int;
                    }
                } else if c == 'E' {
                    end = cell;
                    proof {
                        e_found = true;
                        e_y = y as int;
                        e_x = x as int;
                    }
                } else if c == ' ' {
                } else {
                    proof {
                        assert(maze_char(input@[y as int]@[x as int]));
                        assert(false);
                    }
                }
                x += 1;
            }
            y += 1;
        }
        proof {
            if s_found {
                assert forall|y2: int, x2: int| #[trigger] is_last_marker(input@, y2, x2, 'S')
                implies start == cell_at(*config, x2, y2) by {
                    assert(char_at(input@, s_y, s_x, 'S'));
                    assert(y2 == s_y && x2 == s_x);
                };
            }
            if e_found {
                assert forall|y2: int, x2: int| #[trigger] is_last_marker(input@, y2, x2, 'E')
                implies end == cell_at(*config, x2, y2) by {
                    assert(char_at(input@, e_y, e_x, 'E'));
                    assert(y2 == e_y && x2 == e_x);
                };
            }
        }
        Maze { start, end, obstacles }
    }
}

} // verus!
