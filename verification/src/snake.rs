use vstd::prelude::*;

use crate::game::{Direction, GridConfig};
use std::collections::VecDeque;

verus! {

/// The creature starts each episode with this many segments.
pub const START_SNAKE_LEN: usize = 6;

/// The body of the creature, head first.
pub type Tail = VecDeque<Position>;

/// A grid coordinate in coordinate units (multiples of the configured cell
/// size for cells of the playing field). Candidates generated during search
/// may lie outside the field and are filtered before acceptance.
#[derive(Debug, PartialEq, Eq, Structural, Clone, Copy, Hash)]
pub struct Position {
    pub x: i64,
    pub y: i64,
}

/// Manhattan distance between two positions, in coordinate units.
pub open spec fn spec_mhtn(a: Position, b: Position) -> int {
    vstd::math::abs(b.x - a.x) + vstd::math::abs(b.y - a.y) as int
}

/// The direction, if any, whose unit step (of `cs` coordinate units)
/// leads from `start` to `end`. Any other displacement, zero included,
/// is not a legal single step.
pub open spec fn spec_to_direction(start: Position, end: Position, cs: int) -> Option<Direction> {
    if end.x == start.x - cs && end.y == start.y {
        Some(Direction::Left)
    } else if end.x == start.x + cs && end.y == start.y {
        Some(Direction::Right)
    } else if end.x == start.x && end.y == start.y + cs {
        Some(Direction::Down)
    } else if end.x == start.x && end.y == start.y - cs {
        Some(Direction::Up)
    } else {
        None
    }
}

/// Two positions exactly one legal step of size `cs` apart.
pub open spec fn step_adjacent(a: Position, b: Position, cs: int) -> bool {
    spec_to_direction(a, b, cs) is Some
}

/// The position one step of size `cs` in direction `d` from `p`.
pub open spec fn spec_step(p: Position, d: Direction, cs: int) -> Position {
    Position { x: (p.x + cs * d.step_x()) as i64, y: (p.y + cs * d.step_y()) as i64 }
}

/// Coordinates far enough from the extremes of `i64` that sums and
/// differences of a few of them cannot overflow. Every position of a
/// well-formed grid is bounded, with room to spare for out-of-range
/// search candidates.
impl Position {
    pub open spec fn bounded(self) -> bool {
        &&& -0x1000_0000 <= self.x <= 0x1000_0000
        &&& -0x1000_0000 <= self.y <= 0x1000_0000
    }

    /// Manhattan distance to `rhs`.
    pub fn mhtn_dist(self, rhs: Position) -> (r: i64)
        requires
            self.bounded(),
            rhs.bounded(),
        ensures
            r == spec_mhtn(self, rhs),
    {
        let dx = if rhs.x >= self.x {
            rhs.x - self.x
        } else {
            self.x - rhs.x
        };
        let dy = if rhs.y >= self.y {
            rhs.y - self.y
        } else {
            self.y - rhs.y
        };
        dx + dy
    }

    /// Squared Euclidean distance to `rhs`, exact in integers.
    pub fn dist(self, rhs: Position) -> (r: i64)
        requires
            self.bounded(),
            rhs.bounded(),
        ensures
            r == (self.x - rhs.x) * (self.x - rhs.x) + (self.y - rhs.y) * (self.y - rhs.y),
    {
        let dx = self.x - rhs.x;
        let dy = self.y - rhs.y;
        proof {
            assert(dx * dx <= 0x2000_0000 * 0x2000_0000 && dx * dx >= 0) by (nonlinear_arith)
                requires
                    -0x2000_0000 <= dx <= 0x2000_0000,
            ;
            assert(dy * dy <= 0x2000_0000 * 0x2000_0000 && dy * dy >= 0) by (nonlinear_arith)
                requires
                    -0x2000_0000 <= dy <= 0x2000_0000,
            ;
        }
        dx * dx + dy * dy
    }

    /// Containment in the half-open box `[lower, upper)`, both coordinates.
    pub open spec fn spec_in_range(self, lower: Position, upper: Position) -> bool {
        lower.x <= self.x < upper.x && lower.y <= self.y < upper.y
    }

    pub fn in_range(self, lower: Position, upper: Position) -> (r: bool)
        ensures
            r == self.spec_in_range(lower, upper),
    {
        self.x >= lower.x && self.x < upper.x && self.y >= lower.y && self.y < upper.y
    }

    /// Translate a one-cell displacement into a semantic move; `None`
    /// signals "not a legal single step", never a crash.
    pub fn to_direction(start: Position, end: Position, cell_size: usize) -> (r: Option<Direction>)
        requires
            start.bounded(),
            end.bounded(),
            0 < cell_size <= 4096,
        ensures
            r == spec_to_direction(start, end, cell_size as int),
    {
        let cs = cell_size as i64;
        if end.x == start.x - cs && end.y == start.y {
            Some(Direction::Left)
        } else if end.x == start.x + cs && end.y == start.y {
            Some(Direction::Right)
        } else if end.x == start.x && end.y == start.y + cs {
            Some(Direction::Down)
        } else if end.x == start.x && end.y == start.y - cs {
            Some(Direction::Up)
        } else {
            None
        }
    }
}

impl Default for Position {
    /// The origin cell.
    fn default() -> (p: Position)
        ensures
            p == (Position { x: 0, y: 0 }),
    {
        Position { x: 0, y: 0 }
    }
}

/// The creature: a body of positions, head first, and the direction it is
/// currently moving in (`None` while it stands still).
#[derive(Debug)]
pub struct Snake {
    pub tail: Tail,
    pub direction: Option<Direction>,
}

impl Snake {
    /// True while the creature is still at its spawn length or has not
    /// started moving; the body then grows instead of advancing its tail end.
    pub open spec fn spec_starting_pos(self) -> bool {
        self.tail@.len() <= START_SNAKE_LEN || self.direction is None
    }

    /// A fresh creature: five segments in row 2, heading nowhere yet.
    pub fn new(config: &GridConfig) -> (s: Snake)
        requires
            config.wf(),
        ensures
            s.direction is None,
            s.tail@.len() == START_SNAKE_LEN - 1,
            forall|i: int|
                0 <= i < s.tail@.len() ==> #[trigger] s.tail@[i].x == (i + 1) * config.cell_size
                    && s.tail@[i].y == 2 * config.cell_size,
    {
        let mut tail: Tail = VecDeque::new();
        let mut i: usize = 1;
        while i < START_SNAKE_LEN
            invariant
                1 <= i <= START_SNAKE_LEN,
                config.wf(),
                tail@.len() == i - 1,
                forall|j: int|
                    0 <= j < tail@.len() ==> #[trigger] tail@[j].x == (j + 1) * config.cell_size
                        && tail@[j].y == 2 * config.cell_size,
            decreases START_SNAKE_LEN - i,
        {
            proof {
                vstd::arithmetic::mul::lemma_mul_upper_bound(i as int, 6, config.cell_size as int, 4096);
                vstd::arithmetic::mul::lemma_mul_nonnegative(i as int, config.cell_size as int);
            }
            tail.push_back(
                Position { x: (i * config.cell_size) as i64, y: (2 * config.cell_size) as i64 },
            );
            i += 1;
        }
        tail.reserve(256);
        Snake { tail, direction: None }
    }

    /// Whether the head cell coincides with any other body segment.
    pub fn ate_itself(&self) -> (r: bool)
        requires
            self.tail@.len() > 0,
        ensures
            r == exists|i: int| 1 <= i < self.tail@.len() && #[trigger] self.tail@[i] == self.tail@[0],
    {
        let head = *self.head().unwrap();
        self.is_inside(head)
    }

    /// Whether `pos` coincides with a body segment other than the head.
    pub fn is_inside(&self, pos: Position) -> (r: bool)
        ensures
            r == exists|i: int| 1 <= i < self.tail@.len() && #[trigger] self.tail@[i] == pos,
    {
        let mut i: usize = 1;
        while i < self.tail.len()
            invariant
                1 <= i,
                forall|j: int| 1 <= j < i ==> self.tail@[j] != pos,
            decreases self.tail@.len() - i,
        {
            if self.tail[i] == pos {
                return true;
            }
            i += 1;
        }
        false
    }

    pub fn starting_pos(&self) -> (r: bool)
        ensures
            r == self.spec_starting_pos(),
    {
        self.tail.len() <= START_SNAKE_LEN || self.direction.is_none()
    }

    /// The body after one tick: unless the creature is still growing, the
    /// last segment is dropped; then, if it is moving, a new head one step
    /// in the current direction is pushed in front.
    pub open spec fn spec_updated_tail(self, cs: int) -> Seq<Position> {
        let base = if self.spec_starting_pos() {
            self.tail@
        } else {
            self.tail@.drop_last()
        };
        match self.direction {
            None => base,
            Some(d) => seq![spec_step(self.tail@[0], d, cs)] + base,
        }
    }

    /// Advance the creature one tick.
    pub fn update(&mut self, config: &GridConfig)
        requires
            old(self).tail@.len() > 0,
            old(self).tail@[0].bounded(),
            config.wf(),
        ensures
            final(self).direction == old(self).direction,
            final(self).tail@ == old(self).spec_updated_tail(config.cell_size as int),
    {
        if !self.starting_pos() {
            self.tail.pop_back();
        }
        let head = *self.head().unwrap();
        let cs = config.cell_size as i64;
        proof {
            assert(head == old(self).tail@[0] && head.bounded());
            if let Some(d) = self.direction {
                let cs_i = config.cell_size as int;
                assert(spec_step(head, d, cs_i).x == head.x + cs_i * d.step_x());
                assert(spec_step(head, d, cs_i).y == head.y + cs_i * d.step_y());
            }
        }
        match self.direction {
            Some(Direction::Up) => {
                self.tail.push_front(Position { x: head.x, y: head.y - cs });
            },
            Some(Direction::Down) => {
                self.tail.push_front(Position { x: head.x, y: head.y + cs });
            },
            Some(Direction::Left) => {
                self.tail.push_front(Position { x: head.x - cs, y: head.y });
            },
            Some(Direction::Right) => {
                self.tail.push_front(Position { x: head.x + cs, y: head.y });
            },
            None => {},
        };
    }

    /// Where a head that ran over the far edge of the field reappears,
    /// given the direction it was moving in.
    pub open spec fn spec_teleport(head: Position, dir: Option<Direction>, cfg: GridConfig) -> Position {
        match dir {
            Some(Direction::Down) => if head.y > cfg.y_bound() {
                Position { x: head.x, y: 0 }
            } else {
                head
            },
            Some(Direction::Right) => if head.x > cfg.x_bound() {
                Position { x: 0, y: head.y }
            } else {
                head
            },
            Some(Direction::Up) => if head.y < 0 {
                Position { x: head.x, y: cfg.y_bound() as i64 }
            } else {
                head
            },
            Some(Direction::Left) => if head.x < 0 {
                Position { x: cfg.x_bound() as i64, y: head.y }
            } else {
                head
            },
            None => head,
        }
    }

    /// Wrap the head around to the opposite edge when it has left the field.
    #[allow(dead_code)]
    fn teleport_if_outside(&mut self, config: &GridConfig)
        requires
            old(self).tail@.len() > 0,
            config.wf(),
        ensures
            final(self).direction == old(self).direction,
            final(self).tail@ == old(self).tail@.update(
                0,
                Snake::spec_teleport(old(self).tail@[0], old(self).direction, *config),
            ),
    {
        let head = self.tail.pop_front().unwrap();
        proof {
            vstd::arithmetic::mul::lemma_mul_upper_bound(
                config.width as int, 4096, config.cell_size as int, 4096);
            vstd::arithmetic::mul::lemma_mul_upper_bound(
                config.height as int, 4096, config.cell_size as int, 4096);
            vstd::arithmetic::mul::lemma_mul_nonnegative(config.width as int, config.cell_size as int);
            vstd::arithmetic::mul::lemma_mul_nonnegative(config.height as int, config.cell_size as int);
        }
        let xb = (config.width * config.cell_size) as i64;
        let yb = (config.height * config.cell_size) as i64;
        let new_head = match self.direction {
            Some(Direction::Down) => if head.y > yb {
                Position { x: head.x, y: 0 }
            } else {
                head
            },
            Some(Direction::Right) => if head.x > xb {
                Position { x: 0, y: head.y }
            } else {
                head
            },
            Some(Direction::Up) => if head.y < 0 {
                Position { x: head.x, y: yb }
            } else {
                head
            },
            Some(Direction::Left) => if head.x < 0 {
                Position { x: xb, y: head.y }
            } else {
                head
            },
            None => head,
        };
        self.tail.push_front(new_head);
        proof {
            assert(self.tail@ =~= old(self).tail@.update(
                0,
                Snake::spec_teleport(old(self).tail@[0], old(self).direction, *config),
            ));
        }
    }

    /// A move is legal unless it reverses the current direction.
    pub fn direction_is_legal(&self, direction: Direction) -> (r: bool)
        ensures
            r == match self.direction {
                Some(dir) => dir.spec_opposite() != direction,
                None => true,
            },
    {
        match self.direction {
            Some(dir) => dir.opposite() != direction,
            None => true,
        }
    }

    /// Adopt `direction` if it is legal; an illegal request is ignored.
    pub fn set_direction(&mut self, direction: Direction)
        ensures
            final(self).tail == old(self).tail,
            final(self).direction == if old(self).direction matches Some(dir)
                && dir.spec_opposite() == direction {
                old(self).direction
            } else {
                Some(direction)
            },
    {
        if self.direction_is_legal(direction) {
            self.direction = Some(direction);
        }
    }

    /// Grow the creature by a new head segment at `pos`.
    pub fn add_node(&mut self, pos: Position)
        ensures
            final(self).direction == old(self).direction,
            final(self).tail@ == seq![pos] + old(self).tail@,
    {
        self.tail.push_front(pos);
    }

    /// The head cell, if the creature has any body at all.
    pub fn head(&self) -> (r: Option<&Position>)
        ensures
            match r {
                Some(p) => self.tail@.len() > 0 && *p == self.tail@[0],
                None => self.tail@.len() == 0,
            },
    {
        if self.tail.len() > 0 {
            Some(&self.tail[0])
        } else {
            None
        }
    }
}

/// The target the creature is chasing.
#[derive(Debug)]
pub struct Apple {
    pub pos: Position,
    pub eaten: bool,
}

/// Relies on rand::random_range over `0..n`: the draw lies in that range;
/// nothing more is assumed of it. The empty range, on which the call
/// panics, is excluded.
#[verifier::external_body]
fn random_below(n: usize) -> (r: usize)
    requires
        n > 0,
    ensures
        r < n,
{
    rand::random_range(0..n)
}

impl Apple {
    /// A fresh, uneaten apple on a uniformly drawn cell of the field.
    pub fn new(config: &GridConfig) -> (a: Apple)
        requires
            config.wf(),
        ensures
            !a.eaten,
            0 <= a.pos.x < config.x_bound() && a.pos.x % (config.cell_size as i64) == 0,
            0 <= a.pos.y < config.y_bound() && a.pos.y % (config.cell_size as i64) == 0,
    {
        Apple { pos: Self::rand_pos(config), eaten: false }
    }

    fn rand_pos(config: &GridConfig) -> (p: Position)
        requires
            config.wf(),
        ensures
            0 <= p.x < config.x_bound() && p.x % (config.cell_size as i64) == 0,
            0 <= p.y < config.y_bound() && p.y % (config.cell_size as i64) == 0,
    {
        let cx = random_below(config.width);
        let cy = random_below(config.height);
        proof {
            lemma_cell_coord(cx as int, config.width as int, config.cell_size as int);
            lemma_cell_coord(cy as int, config.height as int, config.cell_size as int);
            vstd::arithmetic::mul::lemma_mul_upper_bound(cx as int, 4096, config.cell_size as int, 4096);
            vstd::arithmetic::mul::lemma_mul_upper_bound(cy as int, 4096, config.cell_size as int, 4096);
        }
        Position { x: (cx * config.cell_size) as i64, y: (cy * config.cell_size) as i64 }
    }
}

/// A cell index scaled by the cell size lands inside the field and on the
/// cell lattice.
proof fn lemma_cell_coord(c: int, n: int, cs: int)
    requires
        0 <= c < n <= 4096,
        0 < cs <= 4096,
    ensures
        0 <= c * cs < n * cs,
        (c * cs) % cs == 0,
{
    assert(0 <= c * cs < n * cs) by (nonlinear_arith)
        requires
            0 <= c < n,
            0 < cs,
    ;
    assert((c * cs) % cs == 0) by (nonlinear_arith)
        requires
            0 < cs,
    ;
}

/// Asking for the direction of a unit step gives that step's direction back:
/// for every direction `d` and position `p`, if `q` is `p` translated by the
/// unit step of `d` (scaled by `cs`), then `to_direction(p, q)` is `Some(d)`.
pub proof fn lemma_to_direction_round_trip(p: Position, q: Position, d: Direction, cs: int)
    requires
        cs > 0,
        q.x == p.x + cs * d.step_x(),
        q.y == p.y + cs * d.step_y(),
    ensures
        spec_to_direction(p, q, cs) == Some(d),
{
}

} // verus!
