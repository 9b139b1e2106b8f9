//! Why every step of assembly keeps the state well-formed.

use crate::assembly::{handed_over, shifted, Assembly};
use crate::grid::{lemma_put, Tiles};
use crate::heal::lemma_healed;
use crate::measure::lemma_empties_drop;
use crate::placement::spec_compatible;
use crate::room::{lemma_connectors, RoomShape};
use crate::tile::{Connector, TileState};
use crate::walls::ray_step;
use vstd::prelude::*;

verus! {

/// Every connector handed over is one of the room's, shifted.
pub proof fn lemma_handed_over_members(
    conns: Seq<Connector>,
    used: Option<Connector>,
    ox: int,
    oy: int,
)
    ensures
        handed_over(conns, used, ox, oy).len() <= conns.len(),
        forall|i: int|
            0 <= i < handed_over(conns, used, ox, oy).len() ==> exists|j: int|
                0 <= j < conns.len() && #[trigger] handed_over(conns, used, ox, oy)[i]
                    == shifted(#[trigger] conns[j], ox, oy),
    decreases conns.len(),
{
    if conns.len() > 0 {
        let front = conns.drop_last();
        lemma_handed_over_members(front, used, ox, oy);
        let out = handed_over(conns, used, ox, oy);
        let rest = handed_over(front, used, ox, oy);
        assert forall|i: int| 0 <= i < out.len() implies exists|j: int|
            0 <= j < conns.len() && #[trigger] out[i] == shifted(#[trigger] conns[j], ox, oy) by {
            if used == Some(conns.last()) {
                let j = choose|j: int|
                    0 <= j < front.len() && #[trigger] rest[i] == shifted(
                        #[trigger] front[j],
                        ox,
                        oy,
                    );
                assert(conns[j] == front[j]);
            } else if i == 0 {
                assert(out[0] == shifted(conns[conns.len() - 1], ox, oy));
            } else {
                assert(out[i] == rest[i - 1]);
                let j = choose|j: int|
                    0 <= j < front.len() && #[trigger] rest[i - 1] == shifted(
                        #[trigger] front[j],
                        ox,
                        oy,
                    );
                assert(conns[j] == front[j]);
            }
        }
    }
}

/// A connector that a grid anchors is anchored by every grid it grows into.
pub proof fn lemma_grown_anchors(t: Tiles, next: Tiles, c: Connector)
    requires
        t.wf(),
        t.grows_into(next),
        t.anchors(c),
    ensures
        next.anchors(c),
{
    let (bx, by) = ray_step(c.x as int, c.y as int, c.direction, -1);
    assert(t.cell_grows(next, c.x as int, c.y as int));
    assert(t.cell_grows(next, bx, by));
}

/// A connector that heals in a grid heals in every grid it grows into.
pub proof fn lemma_grown_heals(t: Tiles, next: Tiles, c: Connector)
    requires
        t.wf(),
        t.grows_into(next),
        t.heals(c),
    ensures
        next.heals(c),
{
    let x = c.x as int;
    let y = c.y as int;
    assert(t.cell_grows(next, x, y - 1));
    assert(t.cell_grows(next, x, y + 1));
    assert(t.cell_grows(next, x - 1, y));
    assert(t.cell_grows(next, x + 1, y));
}

/// The state `b` is well-formed if it comes from a well-formed state `a` in
/// this way: the grid grew; the lists of `a` are the beginnings of the lists
/// of `b`; the connectors added to `available` and `blocked` are anchored;
/// the connectors added to `joined` stand on doors; and every door that is
/// new is explained.
pub proof fn lemma_grown_wf(a: Assembly, b: Assembly)
    requires
        a.wf(),
        a.tiles.grows_into(b.tiles),
        a.available.len() <= b.available.len(),
        a.blocked.len() <= b.blocked.len(),
        a.joined.len() <= b.joined.len(),
        forall|i: int| 0 <= i < a.available.len() ==> a.available[i] == b.available[i],
        forall|i: int| 0 <= i < a.blocked.len() ==> a.blocked[i] == b.blocked[i],
        forall|i: int| 0 <= i < a.joined.len() ==> a.joined[i] == b.joined[i],
        forall|i: int|
            a.available.len() <= i < b.available.len() ==> b.tiles.anchors(
                #[trigger] b.available[i],
            ),
        forall|i: int|
            a.blocked.len() <= i < b.blocked.len() ==> b.tiles.anchors(#[trigger] b.blocked[i]),
        forall|i: int|
            a.joined.len() <= i < b.joined.len() ==> b.tiles.get(
                (#[trigger] b.joined[i]).x as int,
                b.joined[i].y as int,
            ) == Some(TileState::Door),
        forall|x: int, y: int|
            b.tiles.contains(x, y) && #[trigger] b.tiles.at(x, y) == TileState::Door && a.tiles.at(
                x,
                y,
            ) != TileState::Door ==> b.joined_at(x, y) || b.tiles.healed_at(b.blocked, x, y),
    ensures
        b.wf(),
{
    assert forall|i: int| 0 <= i < b.available.len() implies b.anchored(
        #[trigger] b.available[i],
    ) by {
        if i < a.available.len() {
            assert(a.anchored(a.available[i]));
            lemma_grown_anchors(a.tiles, b.tiles, a.available[i]);
        }
    }
    assert forall|i: int| 0 <= i < b.blocked.len() implies b.anchored(#[trigger] b.blocked[i]) by {
        if i < a.blocked.len() {
            assert(a.anchored(a.blocked[i]));
            lemma_grown_anchors(a.tiles, b.tiles, a.blocked[i]);
        }
    }
    assert forall|i: int| 0 <= i < b.joined.len() implies b.tiles.get(
        (#[trigger] b.joined[i]).x as int,
        b.joined[i].y as int,
    ) == Some(TileState::Door) by {
        if i < a.joined.len() {
            let c = a.joined[i];
            assert(a.tiles.get(c.x as int, c.y as int) == Some(TileState::Door));
            assert(a.tiles.cell_grows(b.tiles, c.x as int, c.y as int));
        }
    }
    assert forall|x: int, y: int|
        b.tiles.contains(x, y) && #[trigger] b.tiles.at(x, y) == TileState::Door implies b.joined_at(
        x,
        y,
    ) || b.tiles.healed_at(b.blocked, x, y) by {
        if a.tiles.at(x, y) == TileState::Door {
            if a.joined_at(x, y) {
                let i = choose|i: int|
                    0 <= i < a.joined.len() && (#[trigger] a.joined[i]).x == x && a.joined[i].y
                        == y;
                assert(b.joined[i] == a.joined[i]);
            } else {
                assert(a.tiles.healed_at(a.blocked, x, y));
                let i = choose|i: int|
                    0 <= i < a.blocked.len() && (#[trigger] a.blocked[i]).x == x && a.blocked[i].y
                        == y && a.tiles.heals(a.blocked[i]);
                assert(b.blocked[i] == a.blocked[i]);
                lemma_grown_heals(a.tiles, b.tiles, a.blocked[i]);
            }
        }
    }
}

/// The tile of the room that lands on `(x, y)` is compatible with the tile
/// there.
pub open spec fn compatible_here(
    t: Tiles,
    shape: RoomShape,
    ox: int,
    oy: int,
    x: int,
    y: int,
) -> bool {
    spec_compatible(shape.tiles().at(x - ox, y - oy), t.at(x, y))
}

/// What laying a room at `(ox, oy)` does to the tiles, where the whole room
/// lies inside the grid and the grid accepts it: the grid grows, the room's
/// floor lands on `Empty` tiles only, and its walls on `Empty` tiles and on
/// walls.
pub proof fn lemma_merged(t: Tiles, shape: RoomShape, ox: int, oy: int)
    requires
        t.wf(),
        t.width <= usize::MAX,
        t.height <= usize::MAX,
        shape.wf(),
        ox >= 0,
        oy >= 0,
        ox + shape.size <= t.width,
        oy + shape.size <= t.height,
        t.accepts(shape.tiles(), ox, oy),
    ensures
        t.lands_inside(shape.tiles(), ox, oy),
        t.grows_into(t.merged(shape.tiles(), ox, oy)),
        forall|x: int, y: int|
            t.contains(x, y) ==> (#[trigger] t.merged(shape.tiles(), ox, oy).at(x, y) == (
            if shape.is_floor(x - ox, y - oy) {
                TileState::Floor
            } else if shape.is_covered(x - ox, y - oy) {
                TileState::Wall
            } else {
                t.at(x, y)
            })),
        forall|x: int, y: int|
            shape.is_floor(x - ox, y - oy) ==> t.contains(x, y) && #[trigger] t.at(x, y)
                == TileState::Empty,
        forall|x: int, y: int|
            shape.is_covered(x - ox, y - oy) && !shape.is_floor(x - ox, y - oy) ==> t.contains(x, y)
                && (#[trigger] t.at(x, y) == TileState::Empty || t.at(x, y) == TileState::Wall),
{
    let room = shape.tiles();
    let m = t.merged(room, ox, oy);
    assert forall|x: int, y: int| shape.is_covered(x - ox, y - oy) implies t.contains(x, y)
        && #[trigger] compatible_here(t, shape, ox, oy, x, y) by {
        assert(room.contains(x - ox, y - oy));
        assert(t.cell_accepts(room, ox, oy, x - ox, y - oy));
    }
    assert forall|x: int, y: int| t.contains(x, y) implies #[trigger] t.cell_grows(m, x, y) by {
        if shape.is_covered(x - ox, y - oy) {
            assert(compatible_here(t, shape, ox, oy, x, y));
        }
    }
    assert forall|x: int, y: int| shape.is_floor(x - ox, y - oy) implies t.contains(x, y)
        && #[trigger] t.at(x, y) == TileState::Empty by {
        assert(shape.is_covered(x - ox, y - oy));
        assert(compatible_here(t, shape, ox, oy, x, y));
    }
    assert forall|x: int, y: int|
        shape.is_covered(x - ox, y - oy) && !shape.is_floor(x - ox, y - oy) implies t.contains(x, y)
        && (#[trigger] t.at(x, y) == TileState::Empty || t.at(x, y) == TileState::Wall) by {
        assert(compatible_here(t, shape, ox, oy, x, y));
    }
}

/// Each connector of a room laid at `(ox, oy)` is anchored in the grid after
/// the merge, and in any grid that one grows into.
pub proof fn lemma_merged_anchors(t: Tiles, shape: RoomShape, ox: int, oy: int, next: Tiles)
    requires
        t.wf(),
        t.width <= usize::MAX,
        t.height <= usize::MAX,
        shape.wf(),
        ox >= 0,
        oy >= 0,
        ox + shape.size <= t.width,
        oy + shape.size <= t.height,
        t.accepts(shape.tiles(), ox, oy),
        t.merged(shape.tiles(), ox, oy).grows_into(next),
    ensures
        forall|j: int|
            0 <= j < 4 ==> next.anchors(shifted(#[trigger] shape.connectors()[j], ox, oy)),
{
    lemma_merged(t, shape, ox, oy);
    lemma_connectors(shape);
    let m = t.merged(shape.tiles(), ox, oy);
    assert forall|j: int| 0 <= j < 4 implies next.anchors(
        shifted(#[trigger] shape.connectors()[j], ox, oy),
    ) by {
        let d = shape.connectors()[j];
        let e = shifted(d, ox, oy);
        let (bx, by) = ray_step(d.x as int, d.y as int, d.direction, -1);
        assert(shape.is_floor(bx, by));
        assert(e.x == d.x + ox && e.y == d.y + oy);
        assert(ray_step(e.x as int, e.y as int, e.direction, -1) == (bx + ox, by + oy));
        assert(m.at(e.x as int, e.y as int) == TileState::Wall);
        assert(m.at(bx + ox, by + oy) == TileState::Floor);
        assert(m.anchors(e));
        lemma_grown_anchors(m, next, e);
    }
}

/// A grid grows into itself.
pub proof fn lemma_grows_refl(a: Tiles)
    requires
        a.wf(),
    ensures
        a.grows_into(a),
{
    assert forall|x: int, y: int| a.contains(x, y) implies #[trigger] a.cell_grows(a, x, y) by {}
}

/// Growing is transitive.
pub proof fn lemma_grows_trans(a: Tiles, b: Tiles, c: Tiles)
    requires
        a.grows_into(b),
        b.grows_into(c),
    ensures
        a.grows_into(c),
{
    assert forall|x: int, y: int| a.contains(x, y) implies #[trigger] a.cell_grows(c, x, y) by {
        assert(a.cell_grows(b, x, y));
        assert(b.cell_grows(c, x, y));
    }
}

/// Making a door of a wall is growing.
pub proof fn lemma_door_grows(t: Tiles, x: int, y: int)
    requires
        t.wf(),
        t.contains(x, y),
        t.at(x, y) == TileState::Wall || t.at(x, y) == TileState::Door,
    ensures
        t.grows_into(t.put(x, y, TileState::Door)),
{
    lemma_put(t, x, y, TileState::Door);
    let next = t.put(x, y, TileState::Door);
    assert forall|x2: int, y2: int| t.contains(x2, y2) implies #[trigger] t.cell_grows(
        next,
        x2,
        y2,
    ) by {
        if !(x2 == x && y2 == y) {
            assert(next.at(x2, y2) == t.at(x2, y2));
        }
    }
}

/// Placing the first room on an empty floor gives a well-formed state.
pub proof fn lemma_seed_wf(width: nat, height: nat, shape: RoomShape, sx: int, sy: int)
    requires
        shape.wf(),
        width <= usize::MAX,
        height <= usize::MAX,
        Assembly::start_fits(width, height, shape.size, sx, sy),
    ensures
        Assembly::seed(width, height, shape, sx, sy).wf(),
        Tiles::blank(width, height).lands_inside(
            shape.tiles(),
            sx - shape.center().0,
            sy - shape.center().1,
        ),
{
    let ox = sx - shape.center().0;
    let oy = sy - shape.center().1;
    let s = Assembly::seed(width, height, shape, sx, sy);
    let conns = shape.connectors();
    lemma_handed_over_members(conns, None, ox, oy);
    lemma_connectors(shape);
    assert forall|i: int| 0 <= i < s.available.len() implies s.anchored(
        #[trigger] s.available[i],
    ) by {
        let j = choose|j: int|
            0 <= j < conns.len() && #[trigger] s.available[i] == shifted(
                #[trigger] conns[j],
                ox,
                oy,
            );
        let d = conns[j];
        let e = shifted(d, ox, oy);
        let (bx, by) = ray_step(d.x as int, d.y as int, d.direction, -1);
        assert(shape.is_floor(bx, by));
        assert(e.x == d.x + ox && e.y == d.y + oy);
        assert(ray_step(e.x as int, e.y as int, e.direction, -1) == (bx + ox, by + oy));
        assert(shape.tiles().at(d.x as int, d.y as int) == TileState::Wall);
        assert(shape.tiles().at(bx, by) == TileState::Floor);
        assert(s.tiles.at(e.x as int, e.y as int) == TileState::Wall);
        assert(s.tiles.at(bx + ox, by + oy) == TileState::Floor);
    }
}

/// Attaching a room that the floor admits keeps the state well-formed, lays
/// floor only on `Empty` tiles, and leaves fewer tiles `Empty`.
pub proof fn lemma_attached(a: Assembly, c: Connector, shape: RoomShape)
    requires
        a.wf(),
        shape.wf(),
        a.admits(c, shape),
    ensures
        a.attached(c, shape).wf(),
        a.tiles.grows_into(a.attached(c, shape).tiles),
        a.floor_lands_on_empty(shape, Assembly::offset(c, shape).0, Assembly::offset(c, shape).1),
        a.attached(c, shape).tiles.empties() < a.tiles.empties(),
        a.tiles.lands_inside(
            shape.tiles(),
            Assembly::offset(c, shape).0,
            Assembly::offset(c, shape).1,
        ),
        a.tiles.merged(
            shape.tiles(),
            Assembly::offset(c, shape).0,
            Assembly::offset(c, shape).1,
        ).wf(),
        a.tiles.merged(
            shape.tiles(),
            Assembly::offset(c, shape).0,
            Assembly::offset(c, shape).1,
        ).contains(c.x as int, c.y as int),
{
    let (ox, oy) = Assembly::offset(c, shape);
    let r = shape.facing(c.direction.spec_opposite());
    let room = shape.tiles();
    let t = a.tiles;
    let m = t.merged(room, ox, oy);
    let b = a.attached(c, shape);
    let t2 = b.tiles;
    lemma_connectors(shape);
    lemma_merged(t, shape, ox, oy);
    assert(c.x == ox + r.x && c.y == oy + r.y);
    assert(m.at(c.x as int, c.y as int) == TileState::Wall);
    lemma_door_grows(m, c.x as int, c.y as int);
    lemma_grows_trans(t, m, t2);
    lemma_put(m, c.x as int, c.y as int, TileState::Door);
    lemma_merged_anchors(t, shape, ox, oy, t2);
    // The floor lands on `Empty` tiles, so fewer tiles are `Empty` afterwards.
    assert forall|x: int, y: int|
        room.contains(x, y) && #[trigger] room.at(x, y) == TileState::Floor implies t.contains(
        ox + x,
        oy + y,
    ) && t.at(ox + x, oy + y) == TileState::Empty by {
        assert(shape.is_floor((ox + x) - ox, (oy + y) - oy));
    }
    assert(shape.is_floor((ox + 1) - ox, (oy + 1) - oy));
    assert(t.at(ox + 1, oy + 1) == TileState::Empty);
    assert(t2.at(ox + 1, oy + 1) == TileState::Floor);
    assert forall|x: int, y: int|
        t.contains(x, y) && #[trigger] t2.at(x, y) == TileState::Empty implies t.at(x, y)
        == TileState::Empty by {
        assert(t.cell_grows(t2, x, y));
    }
    lemma_empties_drop(t, t2, ox + 1, oy + 1);
    // The lists.
    let conns = shape.connectors();
    let fresh = handed_over(conns, Some(r), ox, oy);
    lemma_handed_over_members(conns, Some(r), ox, oy);
    assert forall|i: int| a.available.len() <= i < b.available.len() implies t2.anchors(
        #[trigger] b.available[i],
    ) by {
        let k = i - a.available.len();
        assert(b.available[i] == fresh[k]);
        let j = choose|j: int|
            0 <= j < conns.len() && #[trigger] fresh[k] == shifted(#[trigger] conns[j], ox, oy);
        assert(t2.anchors(shifted(conns[j], ox, oy)));
    }
    assert forall|x: int, y: int|
        t2.contains(x, y) && #[trigger] t2.at(x, y) == TileState::Door && t.at(x, y)
            != TileState::Door implies b.joined_at(x, y) || t2.healed_at(b.blocked, x, y) by {
        assert(x == c.x && y == c.y);
        assert(b.joined[a.joined.len() as int] == c);
    }
    lemma_grown_wf(a, b);
}

/// Reconciling keeps the state well-formed: the new doors stand on blocked
/// connectors between floor tiles, and the grid grows.
pub proof fn lemma_reconciled(a: Assembly)
    requires
        a.wf(),
    ensures
        a.reconciled().wf(),
        a.tiles.grows_into(a.reconciled().tiles),
{
    let t = a.tiles;
    let b = a.reconciled();
    lemma_blocked_off_floor(a);
    lemma_healed(t, a.blocked);
    assert forall|x: int, y: int| t.contains(x, y) implies #[trigger] t.cell_grows(
        b.tiles,
        x,
        y,
    ) by {
        if t.healed_at(a.blocked, x, y) {
            let i = choose|i: int|
                0 <= i < a.blocked.len() && (#[trigger] a.blocked[i]).x == x && a.blocked[i].y == y
                    && t.heals(a.blocked[i]);
            assert(a.anchored(a.blocked[i]));
        }
    }
    assert forall|x: int, y: int|
        b.tiles.contains(x, y) && #[trigger] b.tiles.at(x, y) == TileState::Door && t.at(x, y)
            != TileState::Door implies b.joined_at(x, y) || b.tiles.healed_at(b.blocked, x, y) by {
        assert(t.healed_at(a.blocked, x, y));
        let i = choose|i: int|
            0 <= i < a.blocked.len() && (#[trigger] a.blocked[i]).x == x && a.blocked[i].y == y
                && t.heals(a.blocked[i]);
        lemma_grown_heals(t, b.tiles, a.blocked[i]);
    }
    lemma_grown_wf(a, b);
}

/// On a well-formed state no blocked connector stands on a floor tile.
pub proof fn lemma_blocked_off_floor(a: Assembly)
    requires
        a.wf(),
    ensures
        a.tiles.none_on_floor(a.blocked),
{
    let t = a.tiles;
    assert forall|i: int|
        0 <= i < a.blocked.len() && t.contains(
            (#[trigger] a.blocked[i]).x as int,
            a.blocked[i].y as int,
        ) implies t.at(a.blocked[i].x as int, a.blocked[i].y as int) != TileState::Floor by {
        assert(a.anchored(a.blocked[i]));
    }
}

/// Reconciling a well-formed state makes a door of each tile on which a
/// blocked connector stands that heals, and leaves every other tile.
pub proof fn lemma_reconciled_tiles(a: Assembly)
    requires
        a.wf(),
    ensures
        forall|x: int, y: int|
            a.tiles.contains(x, y) ==> #[trigger] a.reconciled().tiles.at(x, y) == (
            if a.tiles.healed_at(a.blocked, x, y) {
                TileState::Door
            } else {
                a.tiles.at(x, y)
            }),
{
    lemma_blocked_off_floor(a);
    lemma_healed(a.tiles, a.blocked);
}

/// Reconciling makes no floor.
pub proof fn lemma_reconciled_floor(a: Assembly)
    requires
        a.wf(),
    ensures
        forall|x: int, y: int|
            a.tiles.contains(x, y) && #[trigger] a.reconciled().tiles.at(x, y) == TileState::Floor
                ==> a.tiles.at(x, y) == TileState::Floor,
{
    lemma_reconciled_tiles(a);
}

/// Finalizing keeps the state well-formed and leaves no tile `Empty`.
pub proof fn lemma_finalized(a: Assembly)
    requires
        a.wf(),
    ensures
        a.finalized().wf(),
        a.tiles.grows_into(a.finalized().tiles),
        a.finalized().tiles.resolved(),
{
    let b = a.finalized();
    assert forall|x: int, y: int| a.tiles.contains(x, y) implies #[trigger] a.tiles.cell_grows(
        b.tiles,
        x,
        y,
    ) by {}
    lemma_grown_wf(a, b);
}

/// Taking the top connector off, or moving it to the blocked ones, keeps the
/// state well-formed.
pub proof fn lemma_popped_wf(a: Assembly)
    requires
        a.wf(),
        a.available.len() > 0,
    ensures
        a.popped().wf(),
        a.popped().blocking(a.available.last()).wf(),
{
    let p = a.popped();
    let c = a.available.last();
    let b = p.blocking(c);
    assert forall|i: int| 0 <= i < p.available.len() implies p.anchored(
        #[trigger] p.available[i],
    ) by {
        assert(a.anchored(a.available[i]));
    }
    assert forall|x: int, y: int|
        p.tiles.contains(x, y) && #[trigger] p.tiles.at(x, y) == TileState::Door implies p.joined_at(
        x,
        y,
    ) || p.tiles.healed_at(p.blocked, x, y) by {
        assert(a.joined_at(x, y) || a.tiles.healed_at(a.blocked, x, y));
    }
    assert(p.wf());
    assert(a.anchored(a.available[a.available.len() - 1]));
    assert forall|x: int, y: int| p.tiles.contains(x, y) implies #[trigger] p.tiles.cell_grows(
        b.tiles,
        x,
        y,
    ) by {}
    lemma_grown_wf(p, b);
}

/// Offering a room keeps the state well-formed.
pub proof fn lemma_offer_wf(a: Assembly, tries: nat, shape: RoomShape)
    requires
        a.wf(),
        shape.wf(),
    ensures
        a.offer(tries, shape).0.wf(),
{
    if a.available.len() > 0 {
        lemma_popped_wf(a);
        if a.popped().admits(a.available.last(), shape) {
            lemma_attached(a.popped(), a.available.last(), shape);
        }
    }
}

} // verus!
