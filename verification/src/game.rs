use vstd::prelude::*;

verus! {

/// A compass direction for a single grid step.
#[derive(Debug, PartialEq, Eq, Structural, Clone, Copy)]
pub enum Direction {
    Up,
    Down,
    Left,
    Right,
}

impl Direction {
    /// The direction pointing the opposite way.
    pub open spec fn spec_opposite(self) -> Direction {
        match self {
            Direction::Up => Direction::Down,
            Direction::Down => Direction::Up,
            Direction::Left => Direction::Right,
            Direction::Right => Direction::Left,
        }
    }

    /// Horizontal component of this direction's unit step, in cells.
    pub open spec fn step_x(self) -> int {
        match self {
            Direction::Up => 0,
            Direction::Down => 0,
            Direction::Left => -1,
            Direction::Right => 1,
        }
    }

    /// Vertical component of this direction's unit step, in cells.
    /// The y axis grows downward, so `Up` decreases y.
    pub open spec fn step_y(self) -> int {
        match self {
            Direction::Up => -1,
            Direction::Down => 1,
            Direction::Left => 0,
            Direction::Right => 0,
        }
    }

    pub fn opposite(self) -> (r: Direction)
        ensures
            r == self.spec_opposite(),
    {
        match self {
            Direction::Up => Direction::Down,
            Direction::Down => Direction::Up,
            Direction::Left => Direction::Right,
            Direction::Right => Direction::Left,
        }
    }
}

/// Grid geometry, supplied at construction time rather than hard-coded:
/// `width` columns and `height` rows of square cells, each `cell_size`
/// coordinate units wide. Positions are expressed in coordinate units,
/// so the playing field spans `[0, width * cell_size) x [0, height * cell_size)`.
#[derive(Debug, PartialEq, Eq, Structural, Clone, Copy)]
pub struct GridConfig {
    pub width: usize,
    pub height: usize,
    pub cell_size: usize,
}

impl GridConfig {
    /// Dimensions that are positive and small enough that all derived
    /// quantities (coordinates, costs, cell counts) stay far from overflow.
    pub open spec fn wf(self) -> bool {
        &&& 0 < self.width <= 4096
        &&& 0 < self.height <= 4096
        &&& 0 < self.cell_size <= 4096
    }

    /// Dimensions on which the boustrophedon cycle construction is valid:
    /// an even number of columns and at least two rows.
    pub open spec fn cycle_compatible(self) -> bool {
        &&& self.wf()
        &&& self.width % 2 == 0
        &&& self.height >= 2
    }

    /// Exclusive upper bound of x coordinates, in coordinate units.
    pub open spec fn x_bound(self) -> int {
        self.width * self.cell_size
    }

    /// Exclusive upper bound of y coordinates, in coordinate units.
    pub open spec fn y_bound(self) -> int {
        self.height * self.cell_size
    }

    pub fn is_wf(&self) -> (r: bool)
        ensures
            r == self.wf(),
    {
        0 < self.width && self.width <= 4096 && 0 < self.height && self.height <= 4096
            && 0 < self.cell_size && self.cell_size <= 4096
    }

    pub fn is_cycle_compatible(&self) -> (r: bool)
        ensures
            r == self.cycle_compatible(),
    {
        self.is_wf() && self.width % 2 == 0 && self.height >= 2
    }
}

/// The ways the navigation engine can fail.
#[derive(Debug, PartialEq, Eq, Structural, Clone, Copy)]
pub enum SolverError {
    /// The creature's head could not be located on the precomputed cycle;
    /// fatal for the episode, the caller must perform a full reset.
    Desynchronization,
    /// Grid dimensions incompatible with the cycle construction were
    /// rejected at construction time.
    MalformedConfig,
}

} // verus!
