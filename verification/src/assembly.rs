//! The state of a floor under assembly, as mathematics: the tiles, the
//! connectors still to be tried, those given up, and those that were joined.

use crate::grid::Tiles;
use crate::room::RoomShape;
use crate::tile::{Connector, TileState};
use crate::walls::ray_step;
use vstd::prelude::*;

verus! {

/// The connector `c` of a room, seen from a grid in which the room's origin
/// lies at `(ox, oy)`.
pub open spec fn shifted(c: Connector, ox: int, oy: int) -> Connector {
    Connector { x: (c.x + ox) as usize, y: (c.y + oy) as usize, direction: c.direction }
}

/// The connectors that a placed room hands over, in the order in which they
/// go onto the stack: the room's last connector first, each shifted, the
/// connector `used` for the seam left out.
pub open spec fn handed_over(
    conns: Seq<Connector>,
    used: Option<Connector>,
    ox: int,
    oy: int,
) -> Seq<Connector>
    decreases conns.len(),
{
    if conns.len() == 0 {
        Seq::empty()
    } else if used == Some(conns.last()) {
        handed_over(conns.drop_last(), used, ox, oy)
    } else {
        seq![shifted(conns.last(), ox, oy)] + handed_over(conns.drop_last(), used, ox, oy)
    }
}

impl Tiles {
    /// The connector stands inside the grid on a `Wall` or a `Door`, and the
    /// tile behind it, on the side of the room that it belongs to, is
    /// `Floor`.
    pub open spec fn anchors(self, c: Connector) -> bool {
        &&& self.contains(c.x as int, c.y as int)
        &&& (self.at(c.x as int, c.y as int) == TileState::Wall || self.at(
            c.x as int,
            c.y as int,
        ) == TileState::Door)
        &&& self.is_floor(
            ray_step(c.x as int, c.y as int, c.direction, -1).0,
            ray_step(c.x as int, c.y as int, c.direction, -1).1,
        )
    }

    /// What a tile may become while rooms are added and doors are made:
    /// `Floor` and `Door` stay, `Wall` stays or becomes `Door`, `Empty` may
    /// become anything.
    pub open spec fn cell_grows(self, next: Tiles, x: int, y: int) -> bool {
        match self.at(x, y) {
            TileState::Empty => true,
            TileState::Floor => next.at(x, y) == TileState::Floor,
            TileState::Wall => next.at(x, y) == TileState::Wall || next.at(x, y)
                == TileState::Door,
            TileState::Door => next.at(x, y) == TileState::Door,
        }
    }

    /// `next` has the size of this grid, and every tile of it is one that the
    /// tile of this grid may become.
    pub open spec fn grows_into(self, next: Tiles) -> bool {
        &&& next.wf()
        &&& self.same_size(next)
        &&& forall|x: int, y: int| self.contains(x, y) ==> #[trigger] self.cell_grows(next, x, y)
    }
}

/// How many candidate rooms a connector is offered before it is given up.
pub const RETRY_BUDGET: usize = 10;

/// The state of a floor under assembly.
pub struct Assembly {
    pub tiles: Tiles,
    /// The connectors still to be tried; the last one is tried next.
    pub available: Seq<Connector>,
    /// The connectors for which no room fitted.
    pub blocked: Seq<Connector>,
    /// The connectors on which a room was attached, each now a door.
    pub joined: Seq<Connector>,
}

impl Assembly {
    /// The tiles anchor the connector.
    pub open spec fn anchored(self, c: Connector) -> bool {
        self.tiles.anchors(c)
    }

    /// A room was attached on a connector at `(x, y)`.
    pub open spec fn joined_at(self, x: int, y: int) -> bool {
        exists|i: int|
            0 <= i < self.joined.len() && (#[trigger] self.joined[i]).x == x && self.joined[i].y
                == y
    }

    /// Every `Door` stands where a room was attached on a connector, or where
    /// a blocked connector lies between two floor tiles.
    pub open spec fn doors_explained(self) -> bool {
        forall|x: int, y: int|
            self.tiles.contains(x, y) && #[trigger] self.tiles.at(x, y) == TileState::Door
                ==> self.joined_at(x, y) || self.tiles.healed_at(self.blocked, x, y)
    }

    /// The grid is well-formed and fits the machine; every connector still
    /// to be tried and every blocked one is anchored; every connector that
    /// was joined is a door; and every door is explained.
    pub open spec fn wf(self) -> bool {
        &&& self.tiles.wf()
        &&& self.tiles.width <= usize::MAX
        &&& self.tiles.height <= usize::MAX
        &&& forall|i: int|
            0 <= i < self.available.len() ==> self.anchored(#[trigger] self.available[i])
        &&& forall|i: int| 0 <= i < self.blocked.len() ==> self.anchored(#[trigger] self.blocked[i])
        &&& forall|i: int|
            0 <= i < self.joined.len() ==> self.tiles.get(
                (#[trigger] self.joined[i]).x as int,
                self.joined[i].y as int,
            ) == Some(TileState::Door)
        &&& self.doors_explained()
    }

    /// A floor of the given size on which nothing was placed yet.
    pub open spec fn empty(width: nat, height: nat) -> Assembly {
        Assembly {
            tiles: Tiles::blank(width, height),
            available: Seq::empty(),
            blocked: Seq::empty(),
            joined: Seq::empty(),
        }
    }

    /// The start lies at least half a room away from every edge.
    pub open spec fn start_fits(width: nat, height: nat, size: nat, sx: int, sy: int) -> bool {
        &&& size / 2 <= sx
        &&& sx + size / 2 < width
        &&& size / 2 <= sy
        &&& sy + size / 2 < height
    }

    /// The floor after the first room was placed with its centre on the
    /// start `(sx, sy)`.
    pub open spec fn seed(width: nat, height: nat, shape: RoomShape, sx: int, sy: int) -> Assembly {
        let ox = sx - shape.center().0;
        let oy = sy - shape.center().1;
        Assembly {
            tiles: Tiles::blank(width, height).merged(shape.tiles(), ox, oy),
            available: handed_over(shape.connectors(), None, ox, oy),
            blocked: Seq::empty(),
            joined: Seq::empty(),
        }
    }

    /// Where the origin of a room must lie for its connector opposite to `c`
    /// to fall on `c`.
    pub open spec fn offset(c: Connector, shape: RoomShape) -> (int, int) {
        let r = shape.facing(c.direction.spec_opposite());
        (c.x - r.x, c.y - r.y)
    }

    /// The room can be attached on `c`: the offset is not negative, the
    /// room's whole grid ends before the last column and row of the floor, and
    /// every tile of the room is compatible with the tile it would cover.
    pub open spec fn admits(self, c: Connector, shape: RoomShape) -> bool {
        let (ox, oy) = Assembly::offset(c, shape);
        &&& ox >= 0
        &&& oy >= 0
        &&& ox + shape.size < self.tiles.width
        &&& oy + shape.size < self.tiles.height
        &&& self.tiles.accepts(shape.tiles(), ox, oy)
    }

    /// The floor after the room was attached on `c`: the room's tiles merged
    /// in, the seam made a door, the room's other connectors on the stack.
    pub open spec fn attached(self, c: Connector, shape: RoomShape) -> Assembly {
        let (ox, oy) = Assembly::offset(c, shape);
        let r = shape.facing(c.direction.spec_opposite());
        Assembly {
            tiles: self.tiles.merged(shape.tiles(), ox, oy).put(
                c.x as int,
                c.y as int,
                TileState::Door,
            ),
            available: self.available + handed_over(shape.connectors(), Some(r), ox, oy),
            blocked: self.blocked,
            joined: self.joined.push(c),
        }
    }

    /// Every `Floor` tile of the room, laid at `(ox, oy)`, covers a tile that
    /// is `Empty`.
    pub open spec fn floor_lands_on_empty(self, shape: RoomShape, ox: int, oy: int) -> bool {
        forall|x: int, y: int|
            shape.tiles().contains(x, y) && #[trigger] shape.tiles().at(x, y) == TileState::Floor
                ==> self.tiles.contains(ox + x, oy + y) && self.tiles.at(ox + x, oy + y)
                == TileState::Empty
    }
}

impl Assembly {
    /// The state after the blocked connectors were reconciled.
    pub open spec fn reconciled(self) -> Assembly {
        Assembly { tiles: self.tiles.healed(self.blocked), ..self }
    }

    /// The state after the last `Empty` tiles were turned into `Wall`.
    pub open spec fn finalized(self) -> Assembly {
        Assembly { tiles: self.tiles.finalized(), ..self }
    }
}

} // verus!
