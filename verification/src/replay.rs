//! Assembly as a function of the numbers drawn: the same draws give the same
//! floor.

use crate::assembly::{Assembly, RETRY_BUDGET};
use crate::room::{RoomShape, MIN_ROOM_DIMENSION};
use crate::tile::Connector;
use vstd::prelude::*;

verus! {

/// The rooms that a run of draws stands for: each room takes two draws, its
/// width and then its height.
pub open spec fn rooms_of(size: nat, draws: Seq<int>) -> Seq<RoomShape> {
    Seq::new(
        draws.len() / 2,
        |i: int| RoomShape { size, width: draws[2 * i] as nat, height: draws[2 * i + 1] as nat },
    )
}

/// The draws come in pairs, and each is a room dimension: it lies between
/// `MIN_ROOM_DIMENSION` and `size`, the latter not included.
pub open spec fn draws_valid(size: nat, draws: Seq<int>) -> bool {
    &&& draws.len() % 2 == 0
    &&& forall|i: int| 0 <= i < draws.len() ==> MIN_ROOM_DIMENSION <= #[trigger] draws[i] < size
}

impl Assembly {
    /// The state with the connector on top of the stack taken off.
    pub open spec fn popped(self) -> Assembly {
        Assembly { available: self.available.drop_last(), ..self }
    }

    /// The state with `c` added to the blocked connectors.
    pub open spec fn blocking(self, c: Connector) -> Assembly {
        Assembly { blocked: self.blocked.push(c), ..self }
    }

    /// One candidate room is offered to the connector on top of the stack,
    /// after `tries` candidates were refused on it. If the floor admits the
    /// room there, it is attached and the connector is done. If not, and the
    /// budget is now spent, the connector moves to the blocked ones. Else the
    /// connector stays on top with one more try counted. With no connector
    /// left nothing happens.
    pub open spec fn offer(self, tries: nat, shape: RoomShape) -> (Assembly, nat) {
        if self.available.len() == 0 {
            (self, tries)
        } else {
            let c = self.available.last();
            if self.popped().admits(c, shape) {
                (self.popped().attached(c, shape), 0nat)
            } else if tries + 1 >= RETRY_BUDGET {
                (self.popped().blocking(c), 0nat)
            } else {
                (self, tries + 1)
            }
        }
    }

    /// The state, and the tries counted on the top connector, after the
    /// rooms were offered one after the other.
    pub open spec fn replay(self, tries: nat, rooms: Seq<RoomShape>) -> (Assembly, nat)
        decreases rooms.len(),
    {
        if rooms.len() == 0 {
            (self, tries)
        } else {
            let before = self.replay(tries, rooms.drop_last());
            before.0.offer(before.1, rooms.last())
        }
    }

    /// The whole of generation as a function of its parameters and of the
    /// numbers drawn: the first two draws make the first room, placed with its
    /// centre on `(sx, sy)`; the others make the candidates offered in turn;
    /// then the blocked connectors are reconciled and the floor finalized.
    pub open spec fn generated(
        width: nat,
        height: nat,
        size: nat,
        sx: int,
        sy: int,
        draws: Seq<int>,
    ) -> Assembly {
        let first = RoomShape { size, width: draws[0] as nat, height: draws[1] as nat };
        Assembly::seed(width, height, first, sx, sy).replay(
            0,
            rooms_of(size, draws.skip(2)),
        ).0.reconciled().finalized()
    }
}

/// Two more draws stand for one more room.
pub proof fn lemma_rooms_push(size: nat, draws: Seq<int>, w: int, h: int)
    requires
        draws.len() % 2 == 0,
    ensures
        rooms_of(size, draws.push(w).push(h)) == rooms_of(size, draws).push(
            RoomShape { size, width: w as nat, height: h as nat },
        ),
{
    assert(rooms_of(size, draws.push(w).push(h)) =~= rooms_of(size, draws).push(
        RoomShape { size, width: w as nat, height: h as nat },
    ));
}

/// Replaying one more room is offering it to the state reached before.
pub proof fn lemma_replay_push(a: Assembly, tries: nat, rooms: Seq<RoomShape>, shape: RoomShape)
    ensures
        a.replay(tries, rooms.push(shape)) == a.replay(tries, rooms).0.offer(
            a.replay(tries, rooms).1,
            shape,
        ),
{
    assert(rooms.push(shape).drop_last() =~= rooms);
}

/// Generation is determined by its parameters and by the numbers drawn: two
/// runs with the same of both end in the same state, tile for tile and
/// connector for connector.
pub proof fn lemma_same_draws_same_floor(
    width: nat,
    height: nat,
    size: nat,
    sx: int,
    sy: int,
    first: Seq<int>,
    second: Seq<int>,
)
    requires
        first == second,
    ensures
        Assembly::generated(width, height, size, sx, sy, first) == Assembly::generated(
            width,
            height,
            size,
            sx,
            sy,
            second,
        ),
{
}

} // verus!
