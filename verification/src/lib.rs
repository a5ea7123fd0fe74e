//! A world of tiles that grows where it is visited.
//!
//! The world is an unbounded grid of columns, each a stack of sixteen cells.
//! A cell starts with every tile of a catalogue, in every rotation, as a
//! candidate, and ends with one. A visit resolves the columns it is given:
//! it picks candidates at random from a seeded stream, lets each choice
//! narrow the cells around it, and closes the columns. Where the rules of the
//! catalogue leave a cell nothing, a problem tile stands in.
//!
//! [`terrain::Terrain`] is the engine; [`model`] says over mathematical
//! values what each of its operations does, and [`laws`] holds what follows
//! for every catalogue and every sequence of visits.

pub mod bits;
pub mod chunks;
pub mod column;
pub mod compat;
pub mod grid;
pub mod laws;
pub mod model;
pub mod order;
pub mod rng;
pub mod terrain;
pub mod tiles;

pub use crate::column::{Cell, Coord};
pub use crate::model::SpawnRequest;
pub use crate::terrain::{Terrain, TerrainError};
pub use crate::tiles::{MeshHandle, Neighbour, Side, SideOutOfBounds, Tile, TileSet};
