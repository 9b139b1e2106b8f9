//! Laying one grid onto another: which tiles may meet, and the merge itself.

use crate::grid::{lemma_tiles_equal, TileGrid, Tiles};
use crate::tile::TileState;
use vstd::prelude::*;

verus! {

/// Whether a `candidate` tile may be laid on a `target` tile. `Empty` is
/// never written, so it goes anywhere; `Floor` needs an `Empty` target; `Wall`
/// may also meet `Wall`, and `Door` may also meet `Door`.
pub open spec fn spec_compatible(candidate: TileState, target: TileState) -> bool {
    match candidate {
        TileState::Empty => true,
        TileState::Floor => target == TileState::Empty,
        TileState::Wall => target == TileState::Empty || target == TileState::Wall,
        TileState::Door => target == TileState::Empty || target == TileState::Door,
    }
}

/// Whether a `candidate` tile may be laid on a `target` tile.
#[verifier::when_used_as_spec(spec_compatible)]
pub fn compatible(candidate: TileState, target: TileState) -> (ok: bool)
    ensures
        ok == spec_compatible(candidate, target),
{
    match candidate {
        TileState::Empty => true,
        TileState::Floor => target == TileState::Empty,
        TileState::Wall => target == TileState::Empty || target == TileState::Wall,
        TileState::Door => target == TileState::Empty || target == TileState::Door,
    }
}

impl Tiles {
    /// The tile of `room` at `(x, y)` can go to `(ox + x, oy + y)` of this
    /// grid: it is `Empty`, or it lands inside on a compatible tile.
    pub open spec fn cell_accepts(self, room: Tiles, ox: int, oy: int, x: int, y: int) -> bool {
        room.at(x, y) == TileState::Empty || (self.contains(ox + x, oy + y) && compatible(
            room.at(x, y),
            self.at(ox + x, oy + y),
        ))
    }

    /// Every tile of `room` can go to its place when `room` is laid with its
    /// origin at `(ox, oy)`.
    pub open spec fn accepts(self, room: Tiles, ox: int, oy: int) -> bool {
        forall|x: int, y: int|
            room.contains(x, y) ==> #[trigger] self.cell_accepts(room, ox, oy, x, y)
    }

    /// Every tile of `room` that is not `Empty` lands inside this grid.
    pub open spec fn lands_inside(self, room: Tiles, ox: int, oy: int) -> bool {
        forall|x: int, y: int|
            room.contains(x, y) && #[trigger] room.at(x, y) != TileState::Empty ==> self.contains(
                ox + x,
                oy + y,
            )
    }

    /// The tile that `room`, laid at `(ox, oy)`, brings to `(x, y)` of this
    /// grid, if it brings one.
    pub open spec fn brought(room: Tiles, ox: int, oy: int, x: int, y: int) -> Option<TileState> {
        if room.contains(x - ox, y - oy) && room.at(x - ox, y - oy) != TileState::Empty {
            Some(room.at(x - ox, y - oy))
        } else {
            None
        }
    }

    /// This grid after `room` was laid at `(ox, oy)`: the tiles of `room`
    /// that are not `Empty` replace what was there, all else stays.
    pub open spec fn merged(self, room: Tiles, ox: int, oy: int) -> Tiles {
        Tiles::build(
            self.width,
            self.height,
            |x: int, y: int|
                match Tiles::brought(room, ox, oy, x, y) {
                    Some(t) => t,
                    None => self.at(x, y),
                },
        )
    }
}

impl TileGrid {
    /// Whether `room` can be laid with its origin at `(ox, oy)`.
    pub fn fits(&self, room: &TileGrid, ox: usize, oy: usize) -> (ok: bool)
        requires
            self.wf(),
            room.wf(),
        ensures
            ok == self@.accepts(room@, ox as int, oy as int),
    {
        let mut y: usize = 0;
        while y < room.height()
            invariant
                self.wf(),
                room.wf(),
                y <= room@.height,
                forall|x2: int, y2: int|
                    room@.contains(x2, y2) && y2 < y ==> #[trigger] self@.cell_accepts(
                        room@,
                        ox as int,
                        oy as int,
                        x2,
                        y2,
                    ),
            decreases room@.height - y,
        {
            let mut x: usize = 0;
            while x < room.width()
                invariant
                    self.wf(),
                    room.wf(),
                    y < room@.height,
                    x <= room@.width,
                    forall|x2: int, y2: int|
                        room@.contains(x2, y2) && (y2 < y || (y2 == y && x2 < x))
                            ==> #[trigger] self@.cell_accepts(room@, ox as int, oy as int, x2, y2),
                decreases room@.width - x,
            {
                let c = room.tile(x, y);
                if c != TileState::Empty {
                    if ox > self.width() || x >= self.width() - ox || oy > self.height() || y
                        >= self.height() - oy {
                        assert(!self@.cell_accepts(room@, ox as int, oy as int, x as int, y as int));
                        return false;
                    }
                    let t = self.tile(ox + x, oy + y);
                    if !compatible(c, t) {
                        assert(!self@.cell_accepts(room@, ox as int, oy as int, x as int, y as int));
                        return false;
                    }
                }
                x += 1;
            }
            y += 1;
        }
        true
    }

    /// Whether every tile of `room` that is not `Empty` lands inside this
    /// grid when `room` is laid with its origin at `(ox, oy)`.
    pub fn lands(&self, room: &TileGrid, ox: usize, oy: usize) -> (ok: bool)
        requires
            self.wf(),
            room.wf(),
        ensures
            ok == self@.lands_inside(room@, ox as int, oy as int),
    {
        let mut y: usize = 0;
        while y < room.height()
            invariant
                self.wf(),
                room.wf(),
                y <= room@.height,
                forall|x2: int, y2: int|
                    room@.contains(x2, y2) && y2 < y && #[trigger] room@.at(x2, y2)
                        != TileState::Empty ==> self@.contains(ox + x2, oy + y2),
            decreases room@.height - y,
        {
            let mut x: usize = 0;
            while x < room.width()
                invariant
                    self.wf(),
                    room.wf(),
                    y < room@.height,
                    x <= room@.width,
                    forall|x2: int, y2: int|
                        room@.contains(x2, y2) && (y2 < y || (y2 == y && x2 < x))
                            && #[trigger] room@.at(x2, y2) != TileState::Empty
                            ==> self@.contains(ox + x2, oy + y2),
                decreases room@.width - x,
            {
                if room.tile(x, y) != TileState::Empty && (ox > self.width() || x >= self.width()
                    - ox || oy > self.height() || y >= self.height() - oy) {
                    assert(room@.at(x as int, y as int) != TileState::Empty);
                    return false;
                }
                x += 1;
            }
            y += 1;
        }
        true
    }

    /// Lays `room` with its origin at `(ox, oy)`: copies every tile of `room`
    /// that is not `Empty`, and leaves the rest of this grid as it was. Where
    /// such a tile would land outside this grid nothing is copied at all, and
    /// the answer is `false`.
    pub fn merge(&mut self, room: &TileGrid, ox: usize, oy: usize) -> (done: bool)
        requires
            old(self).wf(),
            room.wf(),
        ensures
            final(self).wf(),
            done == old(self)@.lands_inside(room@, ox as int, oy as int),
            done ==> final(self)@ == old(self)@.merged(room@, ox as int, oy as int),
            !done ==> final(self)@ == old(self)@,
    {
        if self.lands(room, ox, oy) {
            self.lay(room, ox, oy);
            true
        } else {
            false
        }
    }

    /// Copies every tile of `room` that is not `Empty` to its place, all of
    /// which lie inside this grid.
    pub(crate) fn lay(&mut self, room: &TileGrid, ox: usize, oy: usize)
        requires
            old(self).wf(),
            room.wf(),
            old(self)@.lands_inside(room@, ox as int, oy as int),
        ensures
            final(self).wf(),
            final(self)@ == old(self)@.merged(room@, ox as int, oy as int),
    {
        let ghost goal = old(self)@.merged(room@, ox as int, oy as int);
        let mut y: usize = 0;
        while y < room.height()
            invariant
                self.wf(),
                room.wf(),
                self@.same_size(old(self)@),
                old(self)@.lands_inside(room@, ox as int, oy as int),
                goal == old(self)@.merged(room@, ox as int, oy as int),
                y <= room@.height,
                forall|x2: int, y2: int|
                    self@.contains(x2, y2) ==> #[trigger] self@.at(x2, y2) == (if y2 - oy < y {
                        goal.at(x2, y2)
                    } else {
                        old(self)@.at(x2, y2)
                    }),
            decreases room@.height - y,
        {
            let mut x: usize = 0;
            while x < room.width()
                invariant
                    self.wf(),
                    room.wf(),
                    self@.same_size(old(self)@),
                    old(self)@.lands_inside(room@, ox as int, oy as int),
                    goal == old(self)@.merged(room@, ox as int, oy as int),
                    y < room@.height,
                    x <= room@.width,
                    forall|x2: int, y2: int|
                        self@.contains(x2, y2) ==> #[trigger] self@.at(x2, y2) == (if y2 - oy < y
                            || (y2 - oy == y && x2 - ox < x) {
                            goal.at(x2, y2)
                        } else {
                            old(self)@.at(x2, y2)
                        }),
                decreases room@.width - x,
            {
                let c = room.tile(x, y);
                if c != TileState::Empty {
                    assert(room@.at(x as int, y as int) != TileState::Empty);
                    assert(old(self)@.contains(ox + x, oy + y));
                    self.write(ox + x, oy + y, c);
                }
                x += 1;
            }
            y += 1;
        }
        proof {
            lemma_tiles_equal(self@, goal);
        }
    }
}

} // verus!
