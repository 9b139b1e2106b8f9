//! The floor under assembly: the target grid and its connector lists.

use crate::assembly::{handed_over, Assembly, RETRY_BUDGET};
use crate::connect::{lemma_attached_connected, lemma_grown_connected, lemma_seed_connected};
use crate::upkeep::{
    lemma_attached, lemma_finalized, lemma_grows_refl, lemma_grows_trans, lemma_popped_wf,
    lemma_reconciled, lemma_reconciled_floor, lemma_reconciled_tiles, lemma_seed_wf,
};
use crate::error::GenError;
use crate::grid::TileGrid;
use crate::replay::{draws_valid, lemma_replay_push, lemma_rooms_push, rooms_of};
use crate::room::{lemma_connectors, Room, RoomShape, MIN_ROOM_DIMENSION};
use crate::tile::{Connector, TileState};
use rand::rngs::StdRng;
use vstd::prelude::*;

verus! {

/// Moves the connectors of a placed room onto the stack, the room's last
/// connector first, each shifted by `(ox, oy)`; `used` is left out.
fn hand_over(
    available: &mut Vec<Connector>,
    conns: Vec<Connector>,
    used: Option<Connector>,
    ox: usize,
    oy: usize,
)
    requires
        forall|i: int|
            0 <= i < conns@.len() ==> (#[trigger] conns@[i]).x + ox <= usize::MAX && conns@[i].y
                + oy <= usize::MAX,
    ensures
        final(available)@ == old(available)@ + handed_over(conns@, used, ox as int, oy as int),
{
    let mut rest = conns;
    while rest.len() > 0
        invariant
            forall|i: int|
                0 <= i < rest@.len() ==> (#[trigger] rest@[i]).x + ox <= usize::MAX && rest@[i].y
                    + oy <= usize::MAX,
            available@ + handed_over(rest@, used, ox as int, oy as int) == old(available)@
                + handed_over(conns@, used, ox as int, oy as int),
        decreases rest@.len(),
    {
        let ghost before = rest@;
        let ghost stack = available@;
        let c = rest[rest.len() - 1];
        rest.pop();
        assert(rest@ == before.drop_last());
        let is_used = match used {
            Some(u) => u == c,
            None => false,
        };
        if !is_used {
            available.push(Connector { x: c.x + ox, y: c.y + oy, direction: c.direction });
            assert(available@ + handed_over(rest@, used, ox as int, oy as int) =~= stack
                + handed_over(before, used, ox as int, oy as int));
        }
    }
    assert(handed_over(rest@, used, ox as int, oy as int) =~= Seq::<Connector>::empty());
    assert(available@ + Seq::<Connector>::empty() =~= available@);
}

/// One floor of a dungeon while rooms are added to it.
#[derive(Debug, Clone)]
pub struct FloorMap {
    grid: TileGrid,
    available: Vec<Connector>,
    blocked: Vec<Connector>,
    joined: Vec<Connector>,
}

impl View for FloorMap {
    type V = Assembly;

    closed spec fn view(&self) -> Assembly {
        Assembly {
            tiles: self.grid@,
            available: self.available@,
            blocked: self.blocked@,
            joined: self.joined@,
        }
    }
}

impl FloorMap {
    /// The state held is well-formed.
    pub open spec fn wf(&self) -> bool {
        self@.wf()
    }

    /// A floor of the given size with every tile `Empty` and no connectors.
    pub fn new(width: usize, height: usize) -> (m: FloorMap)
        ensures
            m.wf(),
            m@ == Assembly::empty(width as nat, height as nat),
    {
        FloorMap {
            grid: TileGrid::new(width, height),
            available: Vec::new(),
            blocked: Vec::new(),
            joined: Vec::new(),
        }
    }

    /// The number of columns of the floor.
    pub fn width(&self) -> (w: usize)
        ensures
            w == self@.tiles.width,
    {
        self.grid.width()
    }

    /// The number of rows of the floor.
    pub fn height(&self) -> (h: usize)
        ensures
            h == self@.tiles.height,
    {
        self.grid.height()
    }

    /// The tile at `(x, y)`, or `None` outside the floor.
    pub fn tile(&self, x: usize, y: usize) -> (t: Option<TileState>)
        requires
            self.wf(),
        ensures
            t == self@.tiles.get(x as int, y as int),
    {
        self.grid.get(x, y)
    }

    /// The tiles of the floor.
    pub fn grid(&self) -> (g: &TileGrid)
        requires
            self.wf(),
        ensures
            g.wf(),
            g@ == self@.tiles,
    {
        &self.grid
    }

    /// The connectors still to be tried; the last one is tried next.
    pub fn available(&self) -> (v: &Vec<Connector>)
        ensures
            v@ == self@.available,
    {
        &self.available
    }

    /// The connectors for which no room fitted.
    pub fn blocked(&self) -> (v: &Vec<Connector>)
        ensures
            v@ == self@.blocked,
    {
        &self.blocked
    }

    /// The connectors on which a room was attached.
    pub fn joined(&self) -> (v: &Vec<Connector>)
        ensures
            v@ == self@.joined,
    {
        &self.joined
    }

    /// A floor of the given size with `room` as its first room, placed so
    /// that the room's centre lies on `start`. Refused unless `start` keeps
    /// half the side of the room's grid away from every edge of the floor.
    pub fn seeded(width: usize, height: usize, room: Room, start: (usize, usize)) -> (r: Result<
        FloorMap,
        GenError,
    >)
        requires
            room.wf(),
        ensures
            Assembly::start_fits(
                width as nat,
                height as nat,
                room@.size,
                start.0 as int,
                start.1 as int,
            ) ==> r is Ok,
            !Assembly::start_fits(
                width as nat,
                height as nat,
                room@.size,
                start.0 as int,
                start.1 as int,
            ) ==> r == Err::<FloorMap, GenError>(GenError::StartOutOfBounds),
            r matches Ok(m) ==> m.wf() && m@ == Assembly::seed(
                width as nat,
                height as nat,
                room@,
                start.0 as int,
                start.1 as int,
            ) && m@.tiles.width == width && m@.tiles.height == height
                && m@.tiles.floor_connected(),
    {
        let half = room.size() / 2;
        let (sx, sy) = start;
        if sx < half || sx >= width || half >= width - sx || sy < half || sy >= height || half
            >= height - sy {
            return Err(GenError::StartOutOfBounds);
        }
        let (cx, cy) = room.center();
        let ox = sx - cx;
        let oy = sy - cy;
        let ghost shape = room@;
        proof {
            lemma_seed_wf(width as nat, height as nat, shape, sx as int, sy as int);
            lemma_seed_connected(width as nat, height as nat, shape, sx as int, sy as int);
            lemma_connectors(shape);
        }
        let (layout, conns) = room.into_parts();
        let mut grid = TileGrid::new(width, height);
        grid.lay(&layout, ox, oy);
        let mut available: Vec<Connector> = Vec::new();
        hand_over(&mut available, conns, None, ox, oy);
        assert(available@ =~= handed_over(shape.connectors(), None, ox as int, oy as int));
        Ok(FloorMap { grid, available, blocked: Vec::new(), joined: Vec::new() })
    }

    /// Offers `room` to the connector `c`. The room's connector that faces
    /// the other way is laid on `c`; if the room then lies within the floor
    /// and each of its tiles is compatible with the tile below, the room is
    /// merged in, `c` becomes a door, and the room's other connectors go onto
    /// the stack. Otherwise nothing changes.
    pub fn try_attach(&mut self, c: Connector, room: Room) -> (placed: bool)
        requires
            old(self).wf(),
            room.wf(),
        ensures
            final(self).wf(),
            old(self)@.tiles.grows_into(final(self)@.tiles),
            placed == old(self)@.admits(c, room@),
            placed ==> final(self)@ == old(self)@.attached(c, room@),
            !placed ==> final(self)@ == old(self)@,
            placed ==> old(self)@.floor_lands_on_empty(
                room@,
                Assembly::offset(c, room@).0,
                Assembly::offset(c, room@).1,
            ),
            placed ==> final(self)@.tiles.empties() < old(self)@.tiles.empties(),
            old(self)@.anchored(c) && old(self)@.tiles.floor_connected()
                ==> final(self)@.tiles.floor_connected(),
    {
        let ghost shape = room@;
        let facing = c.direction.opposite();
        let size = room.size();
        let (layout, conns) = room.into_parts();
        proof {
            lemma_connectors(shape);
        }
        let ghost r = shape.facing(facing);
        let mut i: usize = 0;
        while i < conns.len()
            invariant
                self.wf(),
                layout.wf(),
                layout@ == shape.tiles(),
                conns@ == shape.connectors(),
                shape == room@,
                shape.wf(),
                size == shape.size,
                facing == c.direction.spec_opposite(),
                r == shape.facing(facing),
                self@ == old(self)@,
                i <= conns@.len(),
                forall|j: int|
                    0 <= j < i && (#[trigger] conns@[j]).direction == facing
                        ==> !old(self)@.admits(c, shape),
            decreases conns@.len() - i,
        {
            let d = conns[i];
            if d.direction == facing {
                assert(d == r);
                match (c.x.checked_sub(d.x), c.y.checked_sub(d.y)) {
                    (Some(ox), Some(oy)) => {
                        let w = self.grid.width();
                        let h = self.grid.height();
                        if size < w && ox < w - size && size < h && oy < h - size
                            && self.grid.fits(&layout, ox, oy) {
                            proof {
                                assert(Assembly::offset(c, shape) == (ox as int, oy as int));
                                assert(old(self)@.admits(c, shape));
                                lemma_attached(old(self)@, c, shape);
                                if old(self)@.anchored(c) && old(self)@.tiles.floor_connected() {
                                    lemma_attached_connected(old(self)@, c, shape);
                                }
                            }
                            self.grid.lay(&layout, ox, oy);
                            self.grid.write(c.x, c.y, TileState::Door);
                            self.joined.push(c);
                            hand_over(&mut self.available, conns, Some(d), ox, oy);
                            proof {
                                let goal = old(self)@.attached(c, shape);
                                assert(self@.tiles == goal.tiles);
                                assert(self@.available == goal.available);
                                assert(self@.blocked == goal.blocked);
                                assert(self@.joined == goal.joined);
                            }
                            return true;
                        }
                    },
                    _ => {},
                }
            }
            i += 1;
        }
        proof {
            assert(conns@[0] == shape.facing(conns@[0].direction));
            assert(conns@[1] == shape.facing(conns@[1].direction));
            assert(conns@[2] == shape.facing(conns@[2].direction));
            assert(conns@[3] == shape.facing(conns@[3].direction));
        }
        false
    }

    /// Turns each blocked connector that lies in the interior of the floor
    /// between two floor tiles into a door. The order of the blocked
    /// connectors does not matter: a tile becomes `Door` exactly where such a
    /// connector stands, and every other tile stays as it is.
    pub fn reconcile(&mut self)
        requires
            old(self).wf(),
        ensures
            final(self).wf(),
            old(self)@.tiles.grows_into(final(self)@.tiles),
            final(self)@ == old(self)@.reconciled(),
            forall|x: int, y: int|
                old(self)@.tiles.contains(x, y) ==> #[trigger] final(self)@.tiles.at(x, y) == (
                if old(self)@.tiles.healed_at(old(self)@.blocked, x, y) {
                    TileState::Door
                } else {
                    old(self)@.tiles.at(x, y)
                }),
            old(self)@.tiles.floor_connected() ==> final(self)@.tiles.floor_connected(),
    {
        proof {
            lemma_reconciled(self@);
            lemma_reconciled_tiles(self@);
            if self@.tiles.floor_connected() {
                lemma_reconciled_floor(self@);
                lemma_grown_connected(self@.tiles, self@.reconciled().tiles);
            }
        }
        self.grid.reconcile(&self.blocked);
    }

    /// Turns every tile that is still `Empty` into `Wall`.
    pub fn finalize(&mut self)
        requires
            old(self).wf(),
        ensures
            final(self).wf(),
            old(self)@.tiles.grows_into(final(self)@.tiles),
            final(self)@ == old(self)@.finalized(),
            final(self)@.tiles.resolved(),
            old(self)@.tiles.floor_connected() ==> final(self)@.tiles.floor_connected(),
    {
        proof {
            lemma_finalized(self@);
            if self@.tiles.floor_connected() {
                lemma_grown_connected(self@.tiles, self@.finalized().tiles);
            }
        }
        self.grid.finalize();
    }

    /// Offers one candidate room to the connector on top of the stack, on
    /// which `tries` candidates were refused before, and returns the tries
    /// that count from now on. If the floor admits the room, it is attached,
    /// the connector is done, and the count starts anew. If not, and the
    /// budget is spent with this try, the connector moves to the blocked
    /// ones. Else the connector stays on top. With an empty stack nothing
    /// happens.
    pub fn offer(&mut self, tries: usize, room: Room) -> (next: usize)
        requires
            old(self).wf(),
            room.wf(),
        ensures
            final(self).wf(),
            old(self)@.tiles.grows_into(final(self)@.tiles),
            (final(self)@, next as nat) == old(self)@.offer(tries as nat, room@),
            old(self)@.tiles.floor_connected() ==> final(self)@.tiles.floor_connected(),
    {
        if self.available.len() == 0 {
            return tries;
        }
        let ghost before = self@;
        let c = self.available[self.available.len() - 1];
        self.available.pop();
        proof {
            lemma_popped_wf(before);
            assert(self@.available =~= before.popped().available);
        }
        if self.try_attach(c, room) {
            0
        } else if tries >= RETRY_BUDGET - 1 {
            self.blocked.push(c);
            0
        } else {
            self.available.push(c);
            assert(self@.available =~= before.available);
            tries + 1
        }
    }

    /// Drains the stack of connectors. The connector on top is taken off and
    /// offered freshly drawn rooms, up to the retry budget: the first that the
    /// floor admits is attached, and its other connectors go onto the stack;
    /// if none is admitted the connector moves to the blocked ones. This ends,
    /// because each room attached leaves fewer tiles `Empty`.
    pub fn assemble(&mut self, max_room_dimension: usize, rng: &mut StdRng) -> (r: Result<
        (),
        GenError,
    >)
        requires
            old(self).wf(),
        ensures
            final(self).wf(),
            old(self)@.tiles.grows_into(final(self)@.tiles),
            old(self)@.tiles.floor_connected() ==> final(self)@.tiles.floor_connected(),
            max_room_dimension > MIN_ROOM_DIMENSION ==> r is Ok,
            max_room_dimension <= MIN_ROOM_DIMENSION ==> r == Err::<(), GenError>(
                GenError::RoomDimension,
            ) && final(self)@ == old(self)@,
            r is Ok ==> final(self)@.available.len() == 0 && exists|draws: Seq<int>|
                #![trigger draws_valid(max_room_dimension as nat, draws)]
                draws_valid(max_room_dimension as nat, draws) && old(self)@.replay(
                    0,
                    rooms_of(max_room_dimension as nat, draws),
                ) == (final(self)@, 0nat),
    {
        proof {
            lemma_grows_refl(self@.tiles);
        }
        if max_room_dimension <= MIN_ROOM_DIMENSION {
            return Err(GenError::RoomDimension);
        }
        let ghost size = max_room_dimension as nat;
        let ghost start = self@;
        let ghost mut draws: Seq<int> = Seq::empty();
        proof {
            assert(rooms_of(size, draws) =~= Seq::<RoomShape>::empty());
        }
        while self.available.len() > 0
            invariant
                self.wf(),
                max_room_dimension > MIN_ROOM_DIMENSION,
                size == max_room_dimension,
                start == old(self)@,
                start.tiles.grows_into(self@.tiles),
                start.tiles.floor_connected() ==> self@.tiles.floor_connected(),
                draws_valid(size, draws),
                start.replay(0, rooms_of(size, draws)) == (self@, 0nat),
            decreases self@.tiles.empties(), self@.available.len(),
        {
            let ghost before = self@;
            let c = self.available[self.available.len() - 1];
            self.available.pop();
            proof {
                lemma_popped_wf(before);
                assert(self@.available =~= before.popped().available);
                lemma_grows_refl(before.tiles);
            }
            let mut tries: usize = 0;
            let mut placed = false;
            while tries < RETRY_BUDGET && !placed
                invariant
                    self.wf(),
                    before.wf(),
                    before.available.len() > 0,
                    c == before.available.last(),
                    max_room_dimension > MIN_ROOM_DIMENSION,
                    size == max_room_dimension,
                    tries <= RETRY_BUDGET,
                    before.tiles.grows_into(self@.tiles),
                    start.tiles.grows_into(before.tiles),
                    start == old(self)@,
                    start.tiles.floor_connected() ==> self@.tiles.floor_connected(),
                    draws_valid(size, draws),
                    !placed ==> self@ == before.popped(),
                    !placed && tries < RETRY_BUDGET ==> start.replay(0, rooms_of(size, draws)) == (
                        before,
                        tries as nat,
                    ),
                    !placed && tries == RETRY_BUDGET ==> start.replay(0, rooms_of(size, draws))
                        == (before.popped().blocking(c), 0nat),
                    placed ==> start.replay(0, rooms_of(size, draws)) == (self@, 0nat)
                        && self@.tiles.empties() < before.tiles.empties(),
                decreases RETRY_BUDGET - tries,
            {
                let room = match Room::new(max_room_dimension, rng) {
                    Ok(room) => room,
                    Err(e) => {
                        return Err(e);
                    },
                };
                let ghost shape = room@;
                let ghost earlier = self@.tiles;
                placed = self.try_attach(c, room);
                tries += 1;
                proof {
                    lemma_grows_trans(before.tiles, earlier, self@.tiles);
                    lemma_rooms_push(size, draws, shape.width as int, shape.height as int);
                    lemma_replay_push(start, 0, rooms_of(size, draws), shape);
                    draws = draws.push(shape.width as int).push(shape.height as int);
                }
            }
            if !placed {
                self.blocked.push(c);
                assert(self@ == before.popped().blocking(c));
            }
            proof {
                lemma_grows_trans(start.tiles, before.tiles, self@.tiles);
            }
        }
        Ok(())
    }

    /// Generates one floor of `width` by `height` tiles from rooms whose
    /// grids have the side `max_room_dimension`, the first of them centred on
    /// `start`. Refused, before anything is drawn, where
    /// `max_room_dimension` leaves no room dimension to draw, or where `start`
    /// lies closer to an edge than half of it. The floor returned has no
    /// `Empty` tile and no connector left to try, and every door on it is
    /// accounted for. It is a function of the parameters and of the numbers
    /// that `rng` gave.
    pub fn generate_floor(
        width: usize,
        height: usize,
        max_room_dimension: usize,
        start: (usize, usize),
        rng: &mut StdRng,
    ) -> (r: Result<FloorMap, GenError>)
        ensures
            max_room_dimension <= MIN_ROOM_DIMENSION ==> r == Err::<FloorMap, GenError>(
                GenError::RoomDimension,
            ),
            max_room_dimension > MIN_ROOM_DIMENSION && !Assembly::start_fits(
                width as nat,
                height as nat,
                max_room_dimension as nat,
                start.0 as int,
                start.1 as int,
            ) ==> r == Err::<FloorMap, GenError>(GenError::StartOutOfBounds),
            max_room_dimension > MIN_ROOM_DIMENSION && Assembly::start_fits(
                width as nat,
                height as nat,
                max_room_dimension as nat,
                start.0 as int,
                start.1 as int,
            ) ==> r is Ok,
            r matches Ok(m) ==> {
                &&& m.wf()
                &&& m@.tiles.width == width
                &&& m@.tiles.height == height
                &&& m@.tiles.resolved()
                &&& m@.tiles.floor_connected()
                &&& m@.doors_explained()
                &&& m@.available.len() == 0
                &&& exists|draws: Seq<int>|
                    #![trigger draws_valid(max_room_dimension as nat, draws)]
                    draws.len() >= 2 && draws_valid(max_room_dimension as nat, draws) && m@
                        == Assembly::generated(
                        width as nat,
                        height as nat,
                        max_room_dimension as nat,
                        start.0 as int,
                        start.1 as int,
                        draws,
                    )
            },
    {
        if max_room_dimension <= MIN_ROOM_DIMENSION {
            return Err(GenError::RoomDimension);
        }
        let half = max_room_dimension / 2;
        if start.0 < half || start.0 >= width || half >= width - start.0 || start.1 < half
            || start.1 >= height || half >= height - start.1 {
            return Err(GenError::StartOutOfBounds);
        }
        let first = match Room::new(max_room_dimension, rng) {
            Ok(room) => room,
            Err(e) => {
                return Err(e);
            },
        };
        let ghost size = max_room_dimension as nat;
        let ghost shape = first@;
        let mut map = match FloorMap::seeded(width, height, first, start) {
            Ok(map) => map,
            Err(e) => {
                return Err(e);
            },
        };
        let ghost seed = map@;
        match map.assemble(max_room_dimension, rng) {
            Ok(()) => {},
            Err(e) => {
                return Err(e);
            },
        }
        let ghost rest = choose|draws: Seq<int>|
            #![trigger draws_valid(size, draws)]
            draws_valid(size, draws) && seed.replay(0, rooms_of(size, draws)) == (map@, 0nat);
        map.reconcile();
        map.finalize();
        proof {
            let draws = seq![shape.width as int, shape.height as int] + rest;
            assert(draws.skip(2) =~= rest);
            assert(draws_valid(size, draws));
            assert(map@ == Assembly::generated(
                width as nat,
                height as nat,
                size,
                start.0 as int,
                start.1 as int,
                draws,
            ));
        }
        Ok(map)
    }
}

} // verus!
