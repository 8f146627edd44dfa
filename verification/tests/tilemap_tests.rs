use std::iter::zip;
use uneven_waves::tilemap::{Coord, CoordinateSystem, Direction, Tile};

/// Tests whether the neighbor for the given direction returns expected result
#[test]
fn validate_neighbor() {
    let coord: Coord = (0, 0);
    let north_neighbor = Tile::neighbor_of(&coord, Direction::North);
    let east_neighbor = Tile::neighbor_of(&coord, Direction::East);
    let south_neighbor = Tile::neighbor_of(&coord, Direction::South);
    let west_neighbor = Tile::neighbor_of(&coord, Direction::West);
    assert_eq!(north_neighbor, (0, 1));
    assert_eq!(south_neighbor, (0, -1));
    assert_eq!(east_neighbor, (1, 0));
    assert_eq!(west_neighbor, (-1, 0));
}

/// Tests that neighbors return in a clockwise ordering
#[test]
fn validate_neighbors_order() {
    let coord: Coord = (0, 0);
    let neighbors = Tile::neighbors_of(&coord);
    let direction_order = [
        Direction::North,
        Direction::East,
        Direction::South,
        Direction::West,
    ];
    for (neighbor, direction) in zip(neighbors, direction_order) {
        assert_eq!(neighbor, Tile::neighbor_of(&coord, direction))
    }
}
