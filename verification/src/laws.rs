//! What holds of every floor that generation can give, whatever numbers are
//! drawn.

use crate::assembly::Assembly;
use crate::connect::{lemma_attached_connected, lemma_grown_connected, lemma_seed_connected};
use crate::replay::{draws_valid, rooms_of};
use crate::room::RoomShape;
use crate::upkeep::{
    lemma_finalized, lemma_offer_wf, lemma_popped_wf, lemma_reconciled, lemma_reconciled_floor,
    lemma_seed_wf,
};
use vstd::prelude::*;

verus! {

/// Offering a room keeps the floor connected.
pub proof fn lemma_offer_connected(a: Assembly, tries: nat, shape: RoomShape)
    requires
        a.wf(),
        shape.wf(),
        a.tiles.floor_connected(),
    ensures
        a.offer(tries, shape).0.tiles.floor_connected(),
{
    if a.available.len() > 0 {
        let c = a.available.last();
        lemma_popped_wf(a);
        if a.popped().admits(c, shape) {
            assert(a.anchored(a.available[a.available.len() - 1]));
            lemma_attached_connected(a.popped(), c, shape);
        }
    }
}

/// Every state that assembly reaches from a well-formed state is
/// well-formed: each connector stands on a wall or a door with the floor of
/// its room behind it, each connector that was joined is a door, and every
/// door is explained. If the floor was connected, it still is.
pub proof fn lemma_replay_wf(a: Assembly, tries: nat, rooms: Seq<RoomShape>)
    requires
        a.wf(),
        forall|i: int| 0 <= i < rooms.len() ==> (#[trigger] rooms[i]).wf(),
    ensures
        a.replay(tries, rooms).0.wf(),
        a.replay(tries, rooms).0.tiles.same_size(a.tiles),
        a.tiles.floor_connected() ==> a.replay(tries, rooms).0.tiles.floor_connected(),
    decreases rooms.len(),
{
    if rooms.len() > 0 {
        let front = rooms.drop_last();
        assert forall|i: int| 0 <= i < front.len() implies (#[trigger] front[i]).wf() by {
            assert(front[i] == rooms[i]);
        }
        lemma_replay_wf(a, tries, front);
        let before = a.replay(tries, front);
        assert(rooms.last() == rooms[rooms.len() - 1]);
        lemma_offer_wf(before.0, before.1, rooms.last());
        if a.tiles.floor_connected() {
            lemma_offer_connected(before.0, before.1, rooms.last());
        }
    }
}

/// Whatever numbers are drawn, the floor generated from them is well-formed,
/// has the size asked for, holds no `Empty` tile, has a connected floor, and
/// has every door explained: by a room attached on a connector there, or by
/// a blocked connector there that lies between two floor tiles.
pub proof fn lemma_generated(
    width: nat,
    height: nat,
    size: nat,
    sx: int,
    sy: int,
    draws: Seq<int>,
)
    requires
        width <= usize::MAX,
        height <= usize::MAX,
        size <= usize::MAX,
        Assembly::start_fits(width, height, size, sx, sy),
        draws.len() >= 2,
        draws_valid(size, draws),
    ensures
        Assembly::generated(width, height, size, sx, sy, draws).wf(),
        Assembly::generated(width, height, size, sx, sy, draws).tiles.width == width,
        Assembly::generated(width, height, size, sx, sy, draws).tiles.height == height,
        Assembly::generated(width, height, size, sx, sy, draws).tiles.resolved(),
        Assembly::generated(width, height, size, sx, sy, draws).tiles.floor_connected(),
        Assembly::generated(width, height, size, sx, sy, draws).doors_explained(),
{
    let first = RoomShape { size, width: draws[0] as nat, height: draws[1] as nat };
    let seed = Assembly::seed(width, height, first, sx, sy);
    let rooms = rooms_of(size, draws.skip(2));
    assert forall|i: int| 0 <= i < rooms.len() implies (#[trigger] rooms[i]).wf() by {
        assert(draws.skip(2)[2 * i] == draws[2 * i + 2]);
        assert(draws.skip(2)[2 * i + 1] == draws[2 * i + 3]);
    }
    lemma_seed_wf(width, height, first, sx, sy);
    lemma_seed_connected(width, height, first, sx, sy);
    lemma_replay_wf(seed, 0, rooms);
    let built = seed.replay(0, rooms).0;
    lemma_reconciled(built);
    lemma_reconciled_floor(built);
    lemma_grown_connected(built.tiles, built.reconciled().tiles);
    let healed = built.reconciled();
    lemma_finalized(healed);
    lemma_grown_connected(healed.tiles, healed.finalized().tiles);
}

} // verus!
