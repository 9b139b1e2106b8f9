//! Procedural generation of a single dungeon floor.
//!
//! A floor is composed of rectangular rooms. Each room is generated on a
//! small grid of its own: a floor rectangle of random size, a ring of walls
//! round it, and one connector on each side. The first room is placed on the
//! start; after that the connectors are worked off as a stack: a connector is
//! offered freshly drawn rooms, and the first one that fits is attached with
//! a door on the seam. Connectors on which nothing fits are blocked; at the
//! end a blocked connector between two floor tiles still becomes a door, and
//! every tile left undecided becomes a wall.

pub mod assembly;
pub mod connect;
pub mod error;
pub mod grid;
pub mod heal;
pub mod laws;
pub mod map;
pub mod measure;
pub mod placement;
pub mod render;
pub mod replay;
pub mod room;
pub mod source;
pub mod tile;
pub mod upkeep;
pub mod walls;
