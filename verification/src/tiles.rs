//! The tile catalogue: tiles, their faces, and the rules that say which faces
//! may touch.

use std::convert::TryFrom;
use std::sync::Arc;
use vstd::prelude::*;
use vstd::std_specs::convert::TryFromSpecImpl;

verus! {

/// A face of a tile, or the direction in which a neighbour lies.
#[derive(Clone, Copy, Debug, PartialEq, Eq, Structural)]
pub enum Side {
    North,
    East,
    South,
    West,
    Up,
    Down,
}

/// The error of converting a number above 5 to a [`Side`].
#[derive(Clone, Copy, Debug, PartialEq, Eq, Structural)]
pub struct SideOutOfBounds;

impl Side {
    /// The number of a side: North, East, South, West, Up, Down count from 0.
    pub open spec fn index_spec(self) -> int {
        match self {
            Side::North => 0,
            Side::East => 1,
            Side::South => 2,
            Side::West => 3,
            Side::Up => 4,
            Side::Down => 5,
        }
    }

    /// The side with the given number.
    pub open spec fn from_index_spec(value: int) -> Result<Side, SideOutOfBounds> {
        if value == 0 {
            Ok(Side::North)
        } else if value == 1 {
            Ok(Side::East)
        } else if value == 2 {
            Ok(Side::South)
        } else if value == 3 {
            Ok(Side::West)
        } else if value == 4 {
            Ok(Side::Up)
        } else if value == 5 {
            Ok(Side::Down)
        } else {
            Err(SideOutOfBounds)
        }
    }

    /// Whether the side is one of the four that a rotation moves.
    pub open spec fn is_horizontal(self) -> bool {
        self != Side::Up && self != Side::Down
    }

    /// The side that faces this one across a shared face.
    pub open spec fn opposite_spec(self) -> Side {
        match self {
            Side::North => Side::South,
            Side::East => Side::West,
            Side::South => Side::North,
            Side::West => Side::East,
            Side::Up => Side::Down,
            Side::Down => Side::Up,
        }
    }

    /// The horizontal side with number `value % 4`.
    pub open spec fn horizontal_spec(value: int) -> Side {
        let k = value % 4;
        if k == 0 {
            Side::North
        } else if k == 1 {
            Side::East
        } else if k == 2 {
            Side::South
        } else {
            Side::West
        }
    }

    /// The number of a side.
    pub fn index(self) -> (r: usize)
        ensures
            r == self.index_spec(),
    {
        match self {
            Side::North => 0,
            Side::East => 1,
            Side::South => 2,
            Side::West => 3,
            Side::Up => 4,
            Side::Down => 5,
        }
    }
}

impl TryFrom<usize> for Side {
    type Error = SideOutOfBounds;

    fn try_from(value: usize) -> (r: Result<Self, SideOutOfBounds>) {
        match value {
            0 => Ok(Side::North),
            1 => Ok(Side::East),
            2 => Ok(Side::South),
            3 => Ok(Side::West),
            4 => Ok(Side::Up),
            5 => Ok(Side::Down),
            _ => Err(SideOutOfBounds),
        }
    }
}

impl TryFromSpecImpl<usize> for Side {
    open spec fn obeys_try_from_spec() -> bool {
        true
    }

    open spec fn try_from_spec(value: usize) -> Result<Self, SideOutOfBounds> {
        Side::from_index_spec(value as int)
    }
}

/// One face of one tile of the catalogue.
#[derive(Clone, Copy, Debug)]
pub struct Neighbour {
    /// The tile's index in the catalogue.
    pub id: usize,
    /// The face of the tile, before any rotation.
    pub side: Side,
}

/// What the embedding program needs to find the mesh of a tile again.
#[derive(Clone, Copy, Debug, PartialEq, Eq, Structural)]
pub struct MeshHandle(pub u64);

/// A tile of the catalogue. A tile without a mesh fills its cell with nothing
/// to show.
#[derive(Clone, Copy, Debug)]
pub struct Tile {
    pub mesh: Option<MeshHandle>,
}

/// The catalogue: the tiles, and the pairs of faces that may touch.
#[derive(Clone, Debug)]
pub struct TileSet {
    pub tiles: Arc<[Tile]>,
    pub neighbours: Arc<[[Neighbour; 2]]>,
}

/// The largest number of tiles in a catalogue: each takes four ids of a set.
pub const MAX_TILES: usize = 32;

/// The id of tile `id` turned by `rot` quarter turns.
pub open spec fn rot_id_spec(id: int, rot: int) -> int {
    rot + id * 4
}

/// The id of tile `id` turned by `rot` quarter turns.
pub fn rot_id(id: usize, rot: usize) -> (r: usize)
    requires
        id < MAX_TILES,
        rot < 4,
    ensures
        r == rot_id_spec(id as int, rot as int),
        r < 128,
        r / 4 == id,
        r % 4 == rot,
{
    rot + id * 4
}

} // verus!
