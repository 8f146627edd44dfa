//! Grid cell identity and 4-directional adjacency.

use vstd::prelude::*;

verus! {

/// A grid cell: an ordered pair of small signed integers. Equality is
/// structural and the grid is conceptually unbounded (up to the integer
/// type's range).
pub type Coord = (i8, i8);

/// One of the four cardinal directions. North increases the second
/// coordinate, South decreases it, East increases the first, West
/// decreases it.
pub enum Direction {
    North,
    South,
    East,
    West,
}

/// The cell one step from `coord` in `direction`.
pub open spec fn neighbor_spec(coord: Coord, direction: Direction) -> Coord {
    match direction {
        Direction::North => (coord.0, (coord.1 + 1) as i8),
        Direction::South => (coord.0, (coord.1 - 1) as i8),
        Direction::East => ((coord.0 + 1) as i8, coord.1),
        Direction::West => ((coord.0 - 1) as i8, coord.1),
    }
}

/// Whether a step from `coord` in `direction` stays inside the
/// representable grid.
pub open spec fn can_step(coord: Coord, direction: Direction) -> bool {
    match direction {
        Direction::North => coord.1 < i8::MAX,
        Direction::South => coord.1 > i8::MIN,
        Direction::East => coord.0 < i8::MAX,
        Direction::West => coord.0 > i8::MIN,
    }
}

/// Whether all four neighbors of `coord` are representable.
pub open spec fn interior(coord: Coord) -> bool {
    &&& i8::MIN < coord.0 < i8::MAX
    &&& i8::MIN < coord.1 < i8::MAX
}

/// The four neighbors of `coord` in clockwise order: North, East,
/// South, West.
pub open spec fn neighbors_spec(coord: Coord) -> Seq<Coord> {
    seq![
        neighbor_spec(coord, Direction::North),
        neighbor_spec(coord, Direction::East),
        neighbor_spec(coord, Direction::South),
        neighbor_spec(coord, Direction::West),
    ]
}

/// Two cells are adjacent when they agree on one axis and differ by
/// exactly one on the other.
pub open spec fn adjacent(a: Coord, b: Coord) -> bool {
    ||| (a.0 == b.0 && (b.1 - a.1 == 1 || a.1 - b.1 == 1))
    ||| (a.1 == b.1 && (b.0 - a.0 == 1 || a.0 - b.0 == 1))
}

/// Every cell has exactly four neighbors, listed clockwise as North,
/// East, South, West, and each differs from the cell on exactly one
/// axis, by one step.
pub proof fn lemma_neighbors_adjacent(c: Coord)
    requires
        interior(c),
    ensures
        neighbors_spec(c).len() == 4,
        neighbors_spec(c)[0] == neighbor_spec(c, Direction::North),
        neighbors_spec(c)[1] == neighbor_spec(c, Direction::East),
        neighbors_spec(c)[2] == neighbor_spec(c, Direction::South),
        neighbors_spec(c)[3] == neighbor_spec(c, Direction::West),
        forall|i: int| 0 <= i < 4 ==> adjacent(c, #[trigger] neighbors_spec(c)[i]),
{
    assert forall|i: int| 0 <= i < 4 implies adjacent(c, #[trigger] neighbors_spec(c)[i]) by {
        assert(neighbors_spec(c)[0] == (c.0, (c.1 + 1) as i8));
        assert(neighbors_spec(c)[1] == ((c.0 + 1) as i8, c.1));
        assert(neighbors_spec(c)[2] == (c.0, (c.1 - 1) as i8));
        assert(neighbors_spec(c)[3] == ((c.0 - 1) as i8, c.1));
    }
}

/// How a cell is held on the board.
#[allow(dead_code)]
enum TileState {
    /// Held by resistance for the given number of remaining turns.
    TemporaryResistance(i8),
    Resistance,
    Suppressor,
}

/// A board cell together with how it is currently held.
#[allow(dead_code)]
pub struct Tile {
    state: TileState,
    coord: Coord,
}

/// Adjacency queries, both free-standing and bound to a cell that
/// carries its own coordinate.
pub trait CoordinateSystem {
    /// The coordinate the instance-bound queries are relative to.
    spec fn spec_coord(&self) -> Coord;

    /// All neighbors of this instance's cell in clockwise order.
    fn neighbors(&self) -> (r: Vec<Coord>)
        requires
            interior(self.spec_coord()),
        ensures
            r@ == neighbors_spec(self.spec_coord()),
    ;

    /// All neighbors of `coord` in clockwise order.
    fn neighbors_of(coord: &Coord) -> (r: Vec<Coord>)
        requires
            interior(*coord),
        ensures
            r@ == neighbors_spec(*coord),
    ;

    /// The neighbor of this instance's cell in the given direction.
    fn neighbor(&self, direction: Direction) -> (r: Coord)
        requires
            can_step(self.spec_coord(), direction),
        ensures
            r == neighbor_spec(self.spec_coord(), direction),
    ;

    /// The neighbor of `coord` in the given direction.
    fn neighbor_of(coord: &Coord, direction: Direction) -> (r: Coord)
        requires
            can_step(*coord, direction),
        ensures
            r == neighbor_spec(*coord, direction),
    ;

    /// The coordinate of this instance's cell.
    fn coord(&self) -> (r: Coord)
        ensures
            r == self.spec_coord(),
    ;
}

impl CoordinateSystem for Tile {
    closed spec fn spec_coord(&self) -> Coord {
        self.coord
    }

    fn neighbors(&self) -> (r: Vec<Coord>) {
        Self::neighbors_of(&self.coord)
    }

    fn neighbors_of(coord: &Coord) -> (r: Vec<Coord>) {
        let mut neighbors: Vec<Coord> = Vec::new();
        neighbors.push(Self::neighbor_of(coord, Direction::North));
        neighbors.push(Self::neighbor_of(coord, Direction::East));
        neighbors.push(Self::neighbor_of(coord, Direction::South));
        neighbors.push(Self::neighbor_of(coord, Direction::West));
        proof {
            assert(neighbors@ =~= neighbors_spec(*coord));
        }
        neighbors
    }

    fn neighbor(&self, direction: Direction) -> (r: Coord) {
        Self::neighbor_of(&self.coord, direction)
    }

    fn neighbor_of(coord: &Coord, direction: Direction) -> (r: Coord) {
        let (x, y) = *coord;
        match direction {
            Direction::North => (x, y + 1),
            Direction::South => (x, y - 1),
            Direction::East => (x + 1, y),
            Direction::West => (x - 1, y),
        }
    }

    fn coord(&self) -> (r: Coord) {
        self.coord
    }
}

} // verus!
