//! Cells of the lattice and the four directions between them.

use vstd::prelude::*;

verus! {

/// A cell of the unbounded lattice, written `(x, y)`; `y` grows downward.
pub type Coord = (i64, i64);

/// A cell whose four neighbours can all be written as a `Coord`.
pub open spec fn interior(c: Coord) -> bool {
    i64::MIN < c.0 < i64::MAX && i64::MIN < c.1 < i64::MAX
}

/// Two cells that share an edge.
pub open spec fn adjacent(a: Coord, b: Coord) -> bool {
    ||| a.0 == b.0 && (a.1 - b.1 == 1 || b.1 - a.1 == 1)
    ||| a.1 == b.1 && (a.0 - b.0 == 1 || b.0 - a.0 == 1)
}

/// One of the four orthogonal reading directions.
#[derive(Clone, Copy, Debug, PartialEq, Eq, Hash, Structural)]
pub enum Direction {
    North,
    East,
    South,
    West,
}

impl Direction {
    pub open spec fn dx(self) -> int {
        match self {
            Direction::East => 1,
            Direction::West => -1,
            _ => 0,
        }
    }

    pub open spec fn dy(self) -> int {
        match self {
            Direction::North => -1,
            Direction::South => 1,
            _ => 0,
        }
    }

    pub open spec fn spec_clockwise(self) -> Direction {
        match self {
            Direction::North => Direction::East,
            Direction::East => Direction::South,
            Direction::South => Direction::West,
            Direction::West => Direction::North,
        }
    }

    pub open spec fn spec_counter_clockwise(self) -> Direction {
        match self {
            Direction::North => Direction::West,
            Direction::East => Direction::North,
            Direction::South => Direction::East,
            Direction::West => Direction::South,
        }
    }

    /// The direction a quarter turn clockwise from this one.
    pub fn clockwise(self) -> (r: Direction)
        ensures
            r == self.spec_clockwise(),
    {
        match self {
            Direction::North => Direction::East,
            Direction::East => Direction::South,
            Direction::South => Direction::West,
            Direction::West => Direction::North,
        }
    }

    /// The direction a quarter turn counter-clockwise from this one.
    pub fn counter_clockwise(self) -> (r: Direction)
        ensures
            r == self.spec_counter_clockwise(),
    {
        match self {
            Direction::North => Direction::West,
            Direction::East => Direction::North,
            Direction::South => Direction::East,
            Direction::West => Direction::South,
        }
    }
}

/// The four directions, in the order they are probed.
pub open spec fn all_directions() -> Seq<Direction> {
    seq![Direction::North, Direction::East, Direction::South, Direction::West]
}

/// The cell one step from `c` in direction `d`.
pub open spec fn spec_step(c: Coord, d: Direction) -> Coord {
    ((c.0 + d.dx()) as i64, (c.1 + d.dy()) as i64)
}

/// The cell one step from `c` in direction `d`.
pub fn step(c: Coord, d: Direction) -> (r: Coord)
    requires
        interior(c),
    ensures
        r == spec_step(c, d),
        r.0 == c.0 + d.dx(),
        r.1 == c.1 + d.dy(),
{
    match d {
        Direction::North => (c.0, c.1 - 1),
        Direction::East => (c.0 + 1, c.1),
        Direction::South => (c.0, c.1 + 1),
        Direction::West => (c.0 - 1, c.1),
    }
}

/// The four neighbours of an interior cell are exactly the cells adjacent to it.
pub proof fn lemma_adjacent_is_step(c: Coord, n: Coord)
    requires
        interior(c),
    ensures
        adjacent(c, n) <==> exists|i: int| 0 <= i < 4 && n == spec_step(c, #[trigger] all_directions()[i]),
{
    if adjacent(c, n) {
        if n.1 == c.1 - 1 {
            assert(n == spec_step(c, all_directions()[0]));
        } else if n.0 == c.0 + 1 {
            assert(n == spec_step(c, all_directions()[1]));
        } else if n.1 == c.1 + 1 {
            assert(n == spec_step(c, all_directions()[2]));
        } else {
            assert(n == spec_step(c, all_directions()[3]));
        }
    }
}

/// The directions in the order they are probed.
pub fn directions() -> (r: Vec<Direction>)
    ensures
        r@ == all_directions(),
{
    let r = vec![Direction::North, Direction::East, Direction::South, Direction::West];
    assert(r@ =~= all_directions());
    r
}

} // verus!
