//! Reconciling blocked connectors: a connector that ended up between two
//! floor tiles becomes a door.

use crate::grid::{lemma_put, TileGrid, Tiles};
use crate::tile::{Connector, TileState};
use vstd::prelude::*;

verus! {

impl Tiles {
    /// Not in the first or last row or column.
    pub open spec fn is_interior(self, x: int, y: int) -> bool {
        0 < x < self.width - 1 && 0 < y < self.height - 1
    }

    /// The tiles north and south of `(x, y)` are both `Floor`, or those west
    /// and east of it are.
    pub open spec fn floor_pair(self, x: int, y: int) -> bool {
        ||| (self.at(x, y - 1) == TileState::Floor && self.at(x, y + 1) == TileState::Floor)
        ||| (self.at(x - 1, y) == TileState::Floor && self.at(x + 1, y) == TileState::Floor)
    }

    /// The connector lies in the interior between two floor tiles.
    pub open spec fn heals(self, c: Connector) -> bool {
        self.is_interior(c.x as int, c.y as int) && self.floor_pair(c.x as int, c.y as int)
    }

    /// The grid after one connector was looked at.
    pub open spec fn healed_one(self, c: Connector) -> Tiles {
        if self.heals(c) {
            self.put(c.x as int, c.y as int, TileState::Door)
        } else {
            self
        }
    }

    /// The grid after the connectors were looked at one after the other.
    pub open spec fn healed(self, blocked: Seq<Connector>) -> Tiles
        decreases blocked.len(),
    {
        if blocked.len() == 0 {
            self
        } else {
            self.healed(blocked.drop_last()).healed_one(blocked.last())
        }
    }

    /// One of the connectors stands at `(x, y)` and heals.
    pub open spec fn healed_at(self, blocked: Seq<Connector>, x: int, y: int) -> bool {
        exists|i: int|
            0 <= i < blocked.len() && (#[trigger] blocked[i]).x == x && blocked[i].y == y
                && self.heals(blocked[i])
    }

    /// No connector stands on a `Floor` tile.
    pub open spec fn none_on_floor(self, blocked: Seq<Connector>) -> bool {
        forall|i: int|
            0 <= i < blocked.len() && self.contains(
                (#[trigger] blocked[i]).x as int,
                blocked[i].y as int,
            ) ==> self.at(blocked[i].x as int, blocked[i].y as int) != TileState::Floor
    }
}

/// Where no connector stands on a floor tile, the order in which they are
/// looked at does not matter: a tile becomes `Door` exactly where a connector
/// stands that heals in the grid as it was, and every other tile stays.
pub proof fn lemma_healed(t: Tiles, blocked: Seq<Connector>)
    requires
        t.wf(),
        t.none_on_floor(blocked),
    ensures
        t.healed(blocked).wf(),
        t.healed(blocked).same_size(t),
        forall|x: int, y: int|
            t.contains(x, y) ==> #[trigger] t.healed(blocked).at(x, y) == (if t.healed_at(
                blocked,
                x,
                y,
            ) {
                TileState::Door
            } else {
                t.at(x, y)
            }),
    decreases blocked.len(),
{
    if blocked.len() > 0 {
        let front = blocked.drop_last();
        let c = blocked.last();
        let mid = t.healed(front);
        assert(t.none_on_floor(front)) by {
            assert forall|i: int|
                0 <= i < front.len() && t.contains(
                    (#[trigger] front[i]).x as int,
                    front[i].y as int,
                ) implies t.at(front[i].x as int, front[i].y as int) != TileState::Floor by {
                assert(front[i] == blocked[i]);
            }
        }
        lemma_healed(t, front);
        assert forall|x: int, y: int| t.contains(x, y) implies (mid.at(x, y) == TileState::Floor
            <==> t.at(x, y) == TileState::Floor) by {
            if t.healed_at(front, x, y) {
                let i = choose|i: int|
                    0 <= i < front.len() && (#[trigger] front[i]).x == x && front[i].y == y
                        && t.heals(front[i]);
                assert(front[i] == blocked[i]);
            }
        }
        assert(mid.heals(c) == t.heals(c));
        if mid.heals(c) {
            lemma_put(mid, c.x as int, c.y as int, TileState::Door);
        }
        assert forall|x: int, y: int| t.contains(x, y) implies #[trigger] t.healed(blocked).at(
            x,
            y,
        ) == (if t.healed_at(blocked, x, y) {
            TileState::Door
        } else {
            t.at(x, y)
        }) by {
            if t.healed_at(front, x, y) {
                let i = choose|i: int|
                    0 <= i < front.len() && (#[trigger] front[i]).x == x && front[i].y == y
                        && t.heals(front[i]);
                assert(blocked[i] == front[i]);
                assert(t.healed_at(blocked, x, y));
            }
            if c.x == x && c.y == y && t.heals(c) {
                assert(blocked[blocked.len() - 1] == c);
                assert(t.healed_at(blocked, x, y));
            }
            if t.healed_at(blocked, x, y) {
                let i = choose|i: int|
                    0 <= i < blocked.len() && (#[trigger] blocked[i]).x == x && blocked[i].y == y
                        && t.heals(blocked[i]);
                if i < front.len() {
                    assert(front[i] == blocked[i]);
                    assert(t.healed_at(front, x, y));
                }
            }
        }
    }
}

impl TileGrid {
    /// Looks at each blocked connector in turn: one that lies in the
    /// interior of the grid between two floor tiles, north and south of it
    /// or west and east of it, becomes `Door`. A connector on the edge of the
    /// grid, or outside it, is passed over.
    pub fn reconcile(&mut self, blocked: &Vec<Connector>)
        requires
            old(self).wf(),
        ensures
            final(self).wf(),
            final(self)@.same_size(old(self)@),
            final(self)@ == old(self)@.healed(blocked@),
    {
        let w = self.width();
        let h = self.height();
        let mut i: usize = 0;
        while i < blocked.len()
            invariant
                self.wf(),
                self@.same_size(old(self)@),
                w == self@.width,
                h == self@.height,
                i <= blocked@.len(),
                self@ == old(self)@.healed(blocked@.take(i as int)),
            decreases blocked@.len() - i,
        {
            let c = blocked[i];
            proof {
                assert(blocked@.take(i + 1).drop_last() =~= blocked@.take(i as int));
                assert(blocked@.take(i + 1).last() == c);
            }
            if w > 0 && h > 0 && c.x > 0 && c.x < w - 1 && c.y > 0 && c.y < h - 1 {
                let north = self.tile(c.x, c.y - 1);
                let south = self.tile(c.x, c.y + 1);
                let west = self.tile(c.x - 1, c.y);
                let east = self.tile(c.x + 1, c.y);
                if (north == TileState::Floor && south == TileState::Floor) || (west
                    == TileState::Floor && east == TileState::Floor) {
                    self.write(c.x, c.y, TileState::Door);
                }
            }
            i += 1;
        }
        proof {
            assert(blocked@.take(blocked@.len() as int) =~= blocked@);
        }
    }
}

} // verus!
