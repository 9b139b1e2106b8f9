//! Why generation can refuse to produce a result.

use vstd::prelude::*;

verus! {

/// The reasons for which a room or a floor is refused.
#[derive(Debug, Clone, Copy, PartialEq, Eq, Structural)]
pub enum GenError {
    /// A room dimension is less than the smallest allowed or not less than
    /// the side of the room's grid; or that side leaves no dimension to draw.
    RoomDimension,
    /// The start coordinate is closer to an edge of the grid than half the
    /// maximum room dimension.
    StartOutOfBounds,
    /// A floor tile sits on the edge of its grid, so that it cannot be walled
    /// in. A room built by this library never gives this: it marks a defect.
    FloorOnEdge,
    /// A ray from a room's centre left the grid without meeting a wall. A room
    /// built by this library never gives this: it marks a defect.
    NoWallOnRay,
}

} // verus!
