//! Grid geometry: headings, cells, bounded stepping and the distance metric.

use crate::chance::random_below;
use crate::consts::{GRID_HEIGHT, GRID_WIDTH};
use vstd::prelude::*;

verus! {

/// One of the four axis-aligned headings.
#[derive(Debug, Clone, Copy, PartialEq, Eq, Hash, Structural)]
pub enum Direction {
    Left,
    Right,
    Up,
    Down,
}

impl Direction {
    /// The headings in their fixed enumeration order.
    pub open spec fn all_spec() -> Seq<Direction> {
        seq![Direction::Left, Direction::Right, Direction::Up, Direction::Down]
    }

    /// The heading that undoes `self`.
    pub open spec fn opposite_spec(self) -> Direction {
        match self {
            Direction::Left => Direction::Right,
            Direction::Right => Direction::Left,
            Direction::Up => Direction::Down,
            Direction::Down => Direction::Up,
        }
    }

    /// Position of `self` in the enumeration order.
    pub open spec fn index_spec(self) -> nat {
        match self {
            Direction::Left => 0,
            Direction::Right => 1,
            Direction::Up => 2,
            Direction::Down => 3,
        }
    }

    /// All four headings, in enumeration order.
    pub fn all() -> (dirs: [Direction; 4])
        ensures
            dirs@ == Direction::all_spec(),
    {
        let dirs = [Direction::Left, Direction::Right, Direction::Up, Direction::Down];
        assert(dirs@ =~= Direction::all_spec());
        dirs
    }

    #[verifier::when_used_as_spec(opposite_spec)]
    pub fn opposite(self) -> (r: Direction)
        ensures
            r == self.opposite_spec(),
    {
        match self {
            Direction::Left => Direction::Right,
            Direction::Right => Direction::Left,
            Direction::Up => Direction::Down,
            Direction::Down => Direction::Up,
        }
    }

    /// Position of `self` in the enumeration order.
    pub fn index(self) -> (i: u32)
        ensures
            i == self.index_spec(),
            i < 4,
            Direction::all_spec()[i as int] == self,
    {
        match self {
            Direction::Left => 0,
            Direction::Right => 1,
            Direction::Up => 2,
            Direction::Down => 3,
        }
    }

    /// The heading at position `n` of the enumeration order once `avoid` has
    /// been struck from it.
    pub open spec fn nth_other_spec(avoid: Direction, n: nat) -> Direction {
        if n >= avoid.index_spec() {
            Direction::all_spec()[n as int + 1]
        } else {
            Direction::all_spec()[n as int]
        }
    }

    /// The heading at position `n` among the three headings other than
    /// `avoid`, in enumeration order.
    pub fn nth_other(avoid: Direction, n: u32) -> (d: Direction)
        requires
            n < 3,
        ensures
            d == Direction::nth_other_spec(avoid, n as nat),
            d != avoid,
    {
        if n >= avoid.index() {
            Direction::from_index(n + 1)
        } else {
            Direction::from_index(n)
        }
    }

    /// A heading other than `avoid` drawn at random, each of the three as
    /// likely as any other.
    pub fn random_other(avoid: Direction) -> (d: Direction)
        ensures
            d != avoid,
    {
        Direction::nth_other(avoid, random_below(3))
    }

    /// A heading drawn at random, each as likely as any other.
    pub fn random() -> Direction {
        Direction::from_index(random_below(4))
    }

    /// The heading at position `i` of the enumeration order.
    pub fn from_index(i: u32) -> (d: Direction)
        requires
            i < 4,
        ensures
            d == Direction::all_spec()[i as int],
            d.index_spec() == i,
    {
        if i == 0 {
            Direction::Left
        } else if i == 1 {
            Direction::Right
        } else if i == 2 {
            Direction::Up
        } else {
            Direction::Down
        }
    }
}

/// Reversing a heading twice gives the heading back.
pub proof fn lemma_opposite_involution(dir: Direction)
    ensures
        dir.opposite().opposite() == dir,
        dir.opposite() != dir,
{
}

/// A cell of the grid, addressed by column `x` and row `y`.
#[derive(Debug, Clone, Copy, PartialEq, Eq, Hash, Structural)]
pub struct Block {
    pub x: u32,
    pub y: u32,
}

impl Block {
    /// Whether the cell lies on a grid of the given size.
    pub open spec fn within(self, width: u32, height: u32) -> bool {
        self.x < width && self.y < height
    }

    /// Whether the cell lies on the playing field.
    pub open spec fn in_grid(self) -> bool {
        self.within(GRID_WIDTH, GRID_HEIGHT)
    }

    /// The neighbour of `self` towards `dir` on a grid of the given size, if
    /// the move does not cross the grid's border. There is no wraparound.
    pub open spec fn step_within(self, dir: Direction, width: u32, height: u32) -> Option<Block> {
        match dir {
            Direction::Left => if self.x > 0 {
                Some(Block { x: (self.x - 1) as u32, y: self.y })
            } else {
                None
            },
            Direction::Right => if self.x < width - 1 {
                Some(Block { x: (self.x + 1) as u32, y: self.y })
            } else {
                None
            },
            Direction::Up => if self.y > 0 {
                Some(Block { x: self.x, y: (self.y - 1) as u32 })
            } else {
                None
            },
            Direction::Down => if self.y < height - 1 {
                Some(Block { x: self.x, y: (self.y + 1) as u32 })
            } else {
                None
            },
        }
    }

    /// The neighbour of `self` towards `dir` on the playing field.
    pub open spec fn step(self, dir: Direction) -> Option<Block> {
        self.step_within(dir, GRID_WIDTH, GRID_HEIGHT)
    }

    /// The L1 distance between two cells.
    pub open spec fn distance(self, other: Block) -> nat {
        let dx = if self.x >= other.x {
            self.x - other.x
        } else {
            other.x - self.x
        };
        let dy = if self.y >= other.y {
            self.y - other.y
        } else {
            other.y - self.y
        };
        (dx + dy) as nat
    }

    pub fn new(x: u32, y: u32) -> (b: Block)
        ensures
            b == (Block { x, y }),
    {
        Block { x, y }
    }

    /// Moves one cell towards `dir`; `None` at the border of the playing field.
    pub fn apply(self, dir: Direction) -> (r: Option<Block>)
        ensures
            r == self.step(dir),
    {
        match dir {
            Direction::Left => if self.x > 0 {
                Some(Block { x: self.x - 1, y: self.y })
            } else {
                None
            },
            Direction::Right => if self.x < GRID_WIDTH - 1 {
                Some(Block { x: self.x + 1, y: self.y })
            } else {
                None
            },
            Direction::Up => if self.y > 0 {
                Some(Block { x: self.x, y: self.y - 1 })
            } else {
                None
            },
            Direction::Down => if self.y < GRID_HEIGHT - 1 {
                Some(Block { x: self.x, y: self.y + 1 })
            } else {
                None
            },
        }
    }

    /// The L1 distance to `other`. The distance has to fit the result type,
    /// which it does for any two cells of the playing field.
    pub fn manhattan_distance(self, other: Block) -> (d: u32)
        requires
            self.distance(other) <= u32::MAX,
        ensures
            d == self.distance(other),
    {
        let dx: u32 = if self.x >= other.x {
            self.x - other.x
        } else {
            other.x - self.x
        };
        let dy: u32 = if self.y >= other.y {
            self.y - other.y
        } else {
            other.y - self.y
        };
        dx + dy
    }

    /// Whether the cell lies on the playing field.
    pub fn is_in_grid(self) -> (r: bool)
        ensures
            r == self.in_grid(),
    {
        self.x < GRID_WIDTH && self.y < GRID_HEIGHT
    }
}

/// On a grid of any size, a step from a cell of the grid followed by a step
/// in the opposite direction leads back to the cell.
pub proof fn lemma_step_back(cell: Block, dir: Direction, width: u32, height: u32)
    requires
        cell.within(width, height),
        cell.step_within(dir, width, height) is Some,
    ensures
        cell.step_within(dir, width, height).unwrap().within(width, height),
        cell.step_within(dir, width, height).unwrap().step_within(dir.opposite(), width, height)
            == Some(cell),
{
}

/// The distance is symmetric, zero exactly between a cell and itself, and
/// changes by exactly one with every step.
pub proof fn lemma_distance_step(cell: Block, dir: Direction, other: Block)
    requires
        cell.step(dir) is Some,
    ensures
        cell.distance(other) == other.distance(cell),
        cell.distance(other) == 0 <==> cell == other,
        cell.step(dir).unwrap().distance(other) == cell.distance(other) + 1
            || cell.step(dir).unwrap().distance(other) + 1 == cell.distance(other),
{
}

} // verus!
